//! Text that collapses under gravity: on every tick each line of the frame
//! is swept once, moving glyphs into the empty cells next to them in the
//! chosen direction.

use vstd::prelude::*;

verus! {

/// The direction the text falls towards.
#[derive(Debug, Clone, Copy, PartialEq, Eq, Structural)]
pub enum Direction {
    Down,
    Up,
    Left,
    Right,
    /// One of the four others, drawn anew on every tick.
    Random,
}

/// One cell of the frame: whether it is empty (a blank with no background)
/// and what it holds.
#[derive(Debug, Clone, Copy, PartialEq, Eq, Structural)]
pub struct GridCell<T> {
    pub empty: bool,
    pub content: T,
}

// ---------------------------------------------------------------------------
// One sweep over a line of cells
// ---------------------------------------------------------------------------

/// `s` with the cells at `i` and `j` exchanged.
pub open spec fn swapped<A>(s: Seq<A>, i: int, j: int) -> Seq<A> {
    s.update(i, s[j]).update(j, s[i])
}

/// The rule of a sweep: whether two neighbouring cells, the first and the
/// second along the line, trade places.
#[derive(Debug, Clone, Copy, PartialEq, Eq, Structural)]
pub enum SweepRule {
    /// The second cell is empty.
    SecondEmpty,
    /// The first cell is empty.
    FirstEmpty,
    /// The second cell is empty and the first is not.
    SecondEmptyFirstFull,
    /// The first cell is empty and the second is not.
    FirstEmptySecondFull,
}

/// The two neighbouring cells trade places under `rule`.
pub open spec fn trades<T>(rule: SweepRule, first: GridCell<T>, second: GridCell<T>) -> bool {
    match rule {
        SweepRule::SecondEmpty => second.empty,
        SweepRule::FirstEmpty => first.empty,
        SweepRule::SecondEmptyFirstFull => second.empty && !first.empty,
        SweepRule::FirstEmptySecondFull => first.empty && !second.empty,
    }
}

/// One sweep from the end of the line to its start: for each position `i`
/// from the last down to 1, the cells at `i - 1` and `i` trade places when
/// the rule says so.
pub open spec fn sweep_back<T>(s: Seq<GridCell<T>>, rule: SweepRule) -> Seq<GridCell<T>>
    decreases s.len(),
{
    if s.len() < 2 {
        s
    } else {
        let i = s.len() - 1;
        let s1 = if trades(rule, s[i - 1], s[i]) {
            swapped(s, i - 1, i)
        } else {
            s
        };
        sweep_back(s1.take(i), rule).push(s1[i])
    }
}

/// Some pair traded places during `sweep_back`.
pub open spec fn sweep_back_moves<T>(s: Seq<GridCell<T>>, rule: SweepRule) -> bool
    decreases s.len(),
{
    if s.len() < 2 {
        false
    } else {
        let i = s.len() - 1;
        let t = trades(rule, s[i - 1], s[i]);
        let s1 = if t {
            swapped(s, i - 1, i)
        } else {
            s
        };
        t || sweep_back_moves(s1.take(i), rule)
    }
}

/// One sweep from the start of the line to its end: for each position `i`
/// from 0 up to the one before last, the cells at `i` and `i + 1` trade
/// places when the rule says so.
pub open spec fn sweep_forward<T>(s: Seq<GridCell<T>>, rule: SweepRule) -> Seq<GridCell<T>>
    decreases s.len(),
{
    if s.len() < 2 {
        s
    } else {
        let s1 = if trades(rule, s[0], s[1]) {
            swapped(s, 0, 1)
        } else {
            s
        };
        seq![s1[0]] + sweep_forward(s1.skip(1), rule)
    }
}

/// Some pair traded places during `sweep_forward`.
pub open spec fn sweep_forward_moves<T>(s: Seq<GridCell<T>>, rule: SweepRule) -> bool
    decreases s.len(),
{
    if s.len() < 2 {
        false
    } else {
        let t = trades(rule, s[0], s[1]);
        let s1 = if t {
            swapped(s, 0, 1)
        } else {
            s
        };
        t || sweep_forward_moves(s1.skip(1), rule)
    }
}

/// A sweep keeps the length of the line.
pub proof fn lemma_sweep_back_len<T>(s: Seq<GridCell<T>>, rule: SweepRule)
    ensures
        sweep_back(s, rule).len() == s.len(),
    decreases s.len(),
{
    if s.len() >= 2 {
        let i = s.len() - 1;
        let s1 = if trades(rule, s[i - 1], s[i]) {
            swapped(s, i - 1, i)
        } else {
            s
        };
        lemma_sweep_back_len(s1.take(i), rule);
    }
}

/// A sweep keeps the length of the line.
pub proof fn lemma_sweep_forward_len<T>(s: Seq<GridCell<T>>, rule: SweepRule)
    ensures
        sweep_forward(s, rule).len() == s.len(),
    decreases s.len(),
{
    if s.len() >= 2 {
        let s1 = if trades(rule, s[0], s[1]) {
            swapped(s, 0, 1)
        } else {
            s
        };
        lemma_sweep_forward_len(s1.skip(1), rule);
    }
}

// ---------------------------------------------------------------------------
// Frames
// ---------------------------------------------------------------------------

/// The rows of a frame as sequences.
pub open spec fn rows_of<T>(cells: Seq<Vec<GridCell<T>>>) -> Seq<Seq<GridCell<T>>> {
    cells.map_values(|row: Vec<GridCell<T>>| row@)
}

/// Every row of the frame has `cols` cells.
pub open spec fn is_rectangular<T>(g: Seq<Seq<GridCell<T>>>, cols: int) -> bool {
    forall|r: int| 0 <= r < g.len() ==> (#[trigger] g[r]).len() == cols
}

/// Column `c` of the frame, top to bottom.
pub open spec fn column<T>(g: Seq<Seq<GridCell<T>>>, c: int) -> Seq<GridCell<T>> {
    Seq::new(g.len(), |r: int| g[r][c])
}


/// Whether the two neighbouring cells trade places under `rule`.
fn cells_trade<T>(rule: SweepRule, first: &GridCell<T>, second: &GridCell<T>) -> (r: bool)
    ensures
        r == trades(rule, *first, *second),
{
    match rule {
        SweepRule::SecondEmpty => second.empty,
        SweepRule::FirstEmpty => first.empty,
        SweepRule::SecondEmptyFirstFull => second.empty && !first.empty,
        SweepRule::FirstEmptySecondFull => first.empty && !second.empty,
    }
}

/// Exchanges the cells at `i - 1` and `i` of a line.
fn swap_adjacent<T>(line: &mut Vec<GridCell<T>>, i: usize)
    requires
        1 <= i < old(line)@.len(),
    ensures
        final(line)@ == swapped(old(line)@, i - 1, i as int),
{
    let (a, b) = line.split_at_mut(i);
    std::mem::swap(&mut a[i - 1], &mut b[0]);
    assert(line@ =~= swapped(old(line)@, i - 1, i as int));
}

/// Sweeps a line from its end to its start under `rule`; returns whether
/// any pair traded places.
pub fn sweep_line_back<T>(line: &mut Vec<GridCell<T>>, rule: SweepRule) -> (moved: bool)
    ensures
        final(line)@ == sweep_back(old(line)@, rule),
        moved == sweep_back_moves(old(line)@, rule),
{
    let ghost s0 = line@;
    let n = line.len();
    if n < 2 {
        return false;
    }
    let mut moved = false;
    let mut top: usize = n - 1;
    assert(s0.take(n as int) =~= s0);
    assert(s0 + s0.skip(n as int) =~= s0);
    while top >= 1
        invariant
            top < n,
            line@.len() == n,
            sweep_back(s0, rule) == sweep_back(line@.take(top + 1), rule) + line@.skip(top + 1),
            sweep_back_moves(s0, rule) == (moved || sweep_back_moves(line@.take(top + 1), rule)),
        decreases top,
    {
        let ghost x = line@;
        let t = cells_trade(rule, &line[top - 1], &line[top]);
        if t {
            swap_adjacent(line, top);
        }
        let ghost x1 = line@;
        proof {
            let s = x.take(top + 1);
            assert(s[top - 1] == x[top - 1] && s[top as int] == x[top as int]);
            let s1 = if t {
                swapped(s, top - 1, top as int)
            } else {
                s
            };
            assert(s1 =~= x1.take(top + 1));
            assert(s1.take(top as int) =~= x1.take(top as int));
            assert(x.skip(top + 1) =~= x1.skip(top + 1));
            assert(sweep_back(x1.take(top as int), rule).push(x1[top as int]) + x1.skip(top + 1)
                =~= sweep_back(x1.take(top as int), rule) + x1.skip(top as int));
        }
        moved = moved || t;
        top -= 1;
    }
    assert(line@.take(1) + line@.skip(1) =~= line@);
    moved
}

/// Sweeps a line from its start to its end under `rule`; returns whether
/// any pair traded places.
pub fn sweep_line_forward<T>(line: &mut Vec<GridCell<T>>, rule: SweepRule) -> (moved: bool)
    ensures
        final(line)@ == sweep_forward(old(line)@, rule),
        moved == sweep_forward_moves(old(line)@, rule),
{
    let ghost s0 = line@;
    let n = line.len();
    if n < 2 {
        return false;
    }
    let mut moved = false;
    let mut i: usize = 0;
    assert(s0.skip(0) =~= s0);
    while i < n - 1
        invariant
            i <= n - 1,
            line@.len() == n,
            sweep_forward(s0, rule) == line@.take(i as int) + sweep_forward(line@.skip(i as int), rule),
            sweep_forward_moves(s0, rule) == (moved || sweep_forward_moves(line@.skip(i as int), rule)),
        decreases n - 1 - i,
    {
        let ghost x = line@;
        let t = cells_trade(rule, &line[i], &line[i + 1]);
        if t {
            swap_adjacent(line, i + 1);
        }
        let ghost x1 = line@;
        proof {
            let s = x.skip(i as int);
            assert(s[0] == x[i as int] && s[1] == x[i + 1]);
            let s1 = if t {
                swapped(s, 0, 1)
            } else {
                s
            };
            assert(s1 =~= x1.skip(i as int));
            assert(s1.skip(1) =~= x1.skip(i + 1));
            assert(x.take(i as int) =~= x1.take(i as int));
            assert(x1.take(i as int) + (seq![x1[i as int]] + sweep_forward(x1.skip(i + 1), rule))
                =~= x1.take(i + 1) + sweep_forward(x1.skip(i + 1), rule));
        }
        moved = moved || t;
        i += 1;
    }
    assert(line@.take(i as int) + line@.skip(i as int) =~= line@);
    moved
}


/// Exchanges the cells in column `c` of rows `r - 1` and `r`.
fn swap_vertical<T>(cells: &mut Vec<Vec<GridCell<T>>>, r: usize, c: usize)
    requires
        1 <= r < old(cells)@.len(),
        c < old(cells)@[r as int]@.len(),
        c < old(cells)@[r - 1]@.len(),
    ensures
        final(cells)@.len() == old(cells)@.len(),
        final(cells)@[r as int]@ == old(cells)@[r as int]@.update(c as int, old(cells)@[r - 1]@[c as int]),
        final(cells)@[r - 1]@ == old(cells)@[r - 1]@.update(c as int, old(cells)@[r as int]@[c as int]),
        forall|k: int|
            0 <= k < old(cells)@.len() && k != r && k != r - 1 ==> final(cells)@[k] == old(cells)@[k],
{
    let (upper, lower) = cells.split_at_mut(r);
    std::mem::swap(&mut upper[r - 1][c], &mut lower[0][c]);
}

/// The frame `g` with column `c` replaced by `col`.
pub open spec fn with_column<T>(g: Seq<Seq<GridCell<T>>>, c: int, col: Seq<GridCell<T>>) -> Seq<
    Seq<GridCell<T>>,
> {
    Seq::new(g.len(), |r: int| g[r].update(c, col[r]))
}

/// Sweeps column `c` of a frame from its bottom to its top under `rule`.
fn sweep_column_back<T>(cells: &mut Vec<Vec<GridCell<T>>>, c: usize, rule: SweepRule) -> (moved: bool)
    requires
        forall|r: int| 0 <= r < old(cells)@.len() ==> c < (#[trigger] old(cells)@[r])@.len(),
    ensures
        rows_of(final(cells)@) == with_column(
            rows_of(old(cells)@),
            c as int,
            sweep_back(column(rows_of(old(cells)@), c as int), rule),
        ),
        moved == sweep_back_moves(column(rows_of(old(cells)@), c as int), rule),
{
    let ghost g0 = rows_of(cells@);
    let ghost col0 = column(g0, c as int);
    let n = cells.len();
    if n < 2 {
        assert(sweep_back(col0, rule) == col0);
        assert forall|r: int| 0 <= r < n implies g0[r].update(c as int, col0[r]) =~= g0[r] by {}
        assert(rows_of(cells@) =~= with_column(g0, c as int, sweep_back(col0, rule)));
        return false;
    }
    let mut moved = false;
    let mut top: usize = n - 1;
    assert(col0.take(n as int) =~= col0);
    assert(col0 + col0.skip(n as int) =~= col0);
    while top >= 1
        invariant
            top < n,
            cells@.len() == n,
            g0.len() == n,
            col0 == column(g0, c as int),
            forall|r: int| 0 <= r < n ==> c < (#[trigger] g0[r]).len(),
            forall|r: int| 0 <= r < n ==> (#[trigger] cells@[r])@.len() == g0[r].len(),
            forall|r: int, k: int|
                0 <= r < n && 0 <= k < g0[r].len() && k != c ==> (#[trigger] cells@[r]@[k]) == g0[r][k],
            sweep_back(col0, rule) == sweep_back(column(rows_of(cells@), c as int).take(top + 1), rule)
                + column(rows_of(cells@), c as int).skip(top + 1),
            sweep_back_moves(col0, rule) == (moved || sweep_back_moves(
                column(rows_of(cells@), c as int).take(top + 1),
                rule,
            )),
        decreases top,
    {
        let ghost x = column(rows_of(cells@), c as int);
        let t = cells_trade(rule, &cells[top - 1][c], &cells[top][c]);
        if t {
            swap_vertical(cells, top, c);
        }
        let ghost x1 = column(rows_of(cells@), c as int);
        proof {
            let s = x.take(top + 1);
            assert(s[top - 1] == x[top - 1] && s[top as int] == x[top as int]);
            let s1 = if t {
                swapped(s, top - 1, top as int)
            } else {
                s
            };
            assert(s1 =~= x1.take(top + 1));
            assert(s1.take(top as int) =~= x1.take(top as int));
            assert(x.skip(top + 1) =~= x1.skip(top + 1));
            assert(sweep_back(x1.take(top as int), rule).push(x1[top as int]) + x1.skip(top + 1)
                =~= sweep_back(x1.take(top as int), rule) + x1.skip(top as int));
        }
        moved = moved || t;
        top -= 1;
    }
    let ghost xf = column(rows_of(cells@), c as int);
    assert(xf.take(1) + xf.skip(1) =~= xf);
    assert forall|r: int| 0 <= r < n implies rows_of(cells@)[r] =~= g0[r].update(c as int, xf[r]) by {}
    assert(rows_of(cells@) =~= with_column(g0, c as int, sweep_back(col0, rule)));
    moved
}

/// Sweeps column `c` of a frame from its top to its bottom under `rule`.
fn sweep_column_forward<T>(cells: &mut Vec<Vec<GridCell<T>>>, c: usize, rule: SweepRule) -> (moved: bool)
    requires
        forall|r: int| 0 <= r < old(cells)@.len() ==> c < (#[trigger] old(cells)@[r])@.len(),
    ensures
        rows_of(final(cells)@) == with_column(
            rows_of(old(cells)@),
            c as int,
            sweep_forward(column(rows_of(old(cells)@), c as int), rule),
        ),
        moved == sweep_forward_moves(column(rows_of(old(cells)@), c as int), rule),
{
    let ghost g0 = rows_of(cells@);
    let ghost col0 = column(g0, c as int);
    let n = cells.len();
    if n < 2 {
        assert(sweep_forward(col0, rule) == col0);
        assert forall|r: int| 0 <= r < n implies g0[r].update(c as int, col0[r]) =~= g0[r] by {}
        assert(rows_of(cells@) =~= with_column(g0, c as int, sweep_forward(col0, rule)));
        return false;
    }
    let mut moved = false;
    let mut i: usize = 0;
    assert(col0.skip(0) =~= col0);
    assert(col0.take(0) + col0 =~= col0);
    while i < n - 1
        invariant
            i <= n - 1,
            cells@.len() == n,
            g0.len() == n,
            col0 == column(g0, c as int),
            forall|r: int| 0 <= r < n ==> c < (#[trigger] g0[r]).len(),
            forall|r: int| 0 <= r < n ==> (#[trigger] cells@[r])@.len() == g0[r].len(),
            forall|r: int, k: int|
                0 <= r < n && 0 <= k < g0[r].len() && k != c ==> (#[trigger] cells@[r]@[k]) == g0[r][k],
            sweep_forward(col0, rule) == column(rows_of(cells@), c as int).take(i as int)
                + sweep_forward(column(rows_of(cells@), c as int).skip(i as int), rule),
            sweep_forward_moves(col0, rule) == (moved || sweep_forward_moves(
                column(rows_of(cells@), c as int).skip(i as int),
                rule,
            )),
        decreases n - 1 - i,
    {
        let ghost x = column(rows_of(cells@), c as int);
        let t = cells_trade(rule, &cells[i][c], &cells[i + 1][c]);
        if t {
            swap_vertical(cells, i + 1, c);
        }
        let ghost x1 = column(rows_of(cells@), c as int);
        proof {
            let s = x.skip(i as int);
            assert(s[0] == x[i as int] && s[1] == x[i + 1]);
            let s1 = if t {
                swapped(s, 0, 1)
            } else {
                s
            };
            assert(s1 =~= x1.skip(i as int));
            assert(s1.skip(1) =~= x1.skip(i + 1));
            assert(x.take(i as int) =~= x1.take(i as int));
            assert(x1.take(i as int) + (seq![x1[i as int]] + sweep_forward(x1.skip(i + 1), rule))
                =~= x1.take(i + 1) + sweep_forward(x1.skip(i + 1), rule));
        }
        moved = moved || t;
        i += 1;
    }
    let ghost xf = column(rows_of(cells@), c as int);
    assert(xf.take(i as int) + xf.skip(i as int) =~= xf);
    assert forall|r: int| 0 <= r < n implies rows_of(cells@)[r] =~= g0[r].update(c as int, xf[r]) by {}
    assert(rows_of(cells@) =~= with_column(g0, c as int, sweep_forward(col0, rule)));
    moved
}


/// The frame `g` (with `cols` columns) after one sweep towards `direction`:
/// columns swept from the bottom (down) or the top (up), moving empty cells
/// against the fall; rows swept so that each glyph with an empty cell on
/// its falling side moves into it (right, left).
pub open spec fn fallen<T>(g: Seq<Seq<GridCell<T>>>, cols: int, direction: Direction) -> Seq<
    Seq<GridCell<T>>,
> {
    match direction {
        Direction::Down => Seq::new(
            g.len(),
            |r: int| Seq::new(cols as nat, |c: int| sweep_back(column(g, c), SweepRule::SecondEmpty)[r]),
        ),
        Direction::Up => Seq::new(
            g.len(),
            |r: int| Seq::new(cols as nat, |c: int| sweep_forward(column(g, c), SweepRule::FirstEmpty)[r]),
        ),
        Direction::Right => g.map_values(
            |row: Seq<GridCell<T>>| sweep_back(row, SweepRule::SecondEmptyFirstFull),
        ),
        Direction::Left => g.map_values(
            |row: Seq<GridCell<T>>| sweep_forward(row, SweepRule::FirstEmptySecondFull),
        ),
        Direction::Random => g,
    }
}

/// Some cells traded places in the sweep towards `direction`.
pub open spec fn falls<T>(g: Seq<Seq<GridCell<T>>>, cols: int, direction: Direction) -> bool {
    match direction {
        Direction::Down => exists|c: int|
            0 <= c < cols && #[trigger] sweep_back_moves(column(g, c), SweepRule::SecondEmpty),
        Direction::Up => exists|c: int|
            0 <= c < cols && #[trigger] sweep_forward_moves(column(g, c), SweepRule::FirstEmpty),
        Direction::Right => exists|r: int|
            0 <= r < g.len() && #[trigger] sweep_back_moves(g[r], SweepRule::SecondEmptyFirstFull),
        Direction::Left => exists|r: int|
            0 <= r < g.len() && #[trigger] sweep_forward_moves(g[r], SweepRule::FirstEmptySecondFull),
        Direction::Random => false,
    }
}

/// Sweeps every column of the frame from the bottom or from the top.
fn sweep_columns<T>(cells: &mut Vec<Vec<GridCell<T>>>, cols: usize, from_bottom: bool) -> (moved: bool)
    requires
        is_rectangular(rows_of(old(cells)@), cols as int),
    ensures
        ({
            let d = if from_bottom {
                Direction::Down
            } else {
                Direction::Up
            };
            &&& rows_of(final(cells)@) == fallen(rows_of(old(cells)@), cols as int, d)
            &&& moved == falls(rows_of(old(cells)@), cols as int, d)
        }),
{
    let ghost g0 = rows_of(cells@);
    let ghost rule = if from_bottom {
        SweepRule::SecondEmpty
    } else {
        SweepRule::FirstEmpty
    };
    let ghost d = if from_bottom {
        Direction::Down
    } else {
        Direction::Up
    };
    let mut moved = false;
    let mut c: usize = 0;
    while c < cols
        invariant
            c <= cols,
            g0 == rows_of(old(cells)@),
            is_rectangular(g0, cols as int),
            rows_of(cells@).len() == g0.len(),
            is_rectangular(rows_of(cells@), cols as int),
            rule == (if from_bottom {
                SweepRule::SecondEmpty
            } else {
                SweepRule::FirstEmpty
            }),
            forall|k: int|
                0 <= k < c ==> #[trigger] column(rows_of(cells@), k) == (if from_bottom {
                    sweep_back(column(g0, k), rule)
                } else {
                    sweep_forward(column(g0, k), rule)
                }),
            forall|k: int| c <= k < cols ==> #[trigger] column(rows_of(cells@), k) == column(g0, k),
            moved == exists|k: int|
                0 <= k < c && (if from_bottom {
                    sweep_back_moves(column(g0, k), rule)
                } else {
                    sweep_forward_moves(column(g0, k), rule)
                }),
        decreases cols - c,
    {
        let ghost before = rows_of(cells@);
        assert(column(before, c as int) == column(g0, c as int));
        assert forall|r: int| 0 <= r < cells@.len() implies c < (#[trigger] cells@[r])@.len() by {
            assert(before[r] == cells@[r]@);
        }
        proof {
            lemma_sweep_back_len(column(before, c as int), SweepRule::SecondEmpty);
            lemma_sweep_forward_len(column(before, c as int), SweepRule::FirstEmpty);
        }
        let m = if from_bottom {
            sweep_column_back(cells, c, SweepRule::SecondEmpty)
        } else {
            sweep_column_forward(cells, c, SweepRule::FirstEmpty)
        };
        let ghost after = rows_of(cells@);
        proof {
            assert forall|k: int| 0 <= k < cols && k != c implies #[trigger] column(after, k) == column(before, k) by {
                assert(column(after, k) =~= column(before, k));
            }
            assert(column(after, c as int) =~= (if from_bottom {
                sweep_back(column(g0, c as int), rule)
            } else {
                sweep_forward(column(g0, c as int), rule)
            }));
            assert(is_rectangular(after, cols as int));
        }
        moved = moved || m;
        c += 1;
    }
    proof {
        let g = rows_of(cells@);
        let f = fallen(g0, cols as int, d);
        assert forall|r: int| 0 <= r < g.len() implies #[trigger] g[r] =~= f[r] by {
            assert forall|k: int| 0 <= k < cols implies g[r][k] == f[r][k] by {
                assert(g[r][k] == column(g, k)[r]);
            }
        }
        assert(g =~= f);
        if moved {
            let k = choose|k: int|
                0 <= k < c && (if from_bottom {
                    sweep_back_moves(column(g0, k), rule)
                } else {
                    sweep_forward_moves(column(g0, k), rule)
                });
            assert(falls(g0, cols as int, d)) by {
                if from_bottom {
                    assert(sweep_back_moves(column(g0, k), SweepRule::SecondEmpty));
                } else {
                    assert(sweep_forward_moves(column(g0, k), SweepRule::FirstEmpty));
                }
            }
        }
    }
    moved
}

/// Sweeps every row of the frame from its end or from its start.
fn sweep_rows<T>(cells: &mut Vec<Vec<GridCell<T>>>, cols: usize, from_end: bool) -> (moved: bool)
    requires
        is_rectangular(rows_of(old(cells)@), cols as int),
    ensures
        ({
            let d = if from_end {
                Direction::Right
            } else {
                Direction::Left
            };
            &&& rows_of(final(cells)@) == fallen(rows_of(old(cells)@), cols as int, d)
            &&& moved == falls(rows_of(old(cells)@), cols as int, d)
        }),
{
    let ghost g0 = rows_of(cells@);
    let ghost rule = if from_end {
        SweepRule::SecondEmptyFirstFull
    } else {
        SweepRule::FirstEmptySecondFull
    };
    let mut moved = false;
    let mut r: usize = 0;
    while r < cells.len()
        invariant
            r <= cells@.len(),
            g0 == rows_of(old(cells)@),
            cells@.len() == g0.len(),
            rule == (if from_end {
                SweepRule::SecondEmptyFirstFull
            } else {
                SweepRule::FirstEmptySecondFull
            }),
            forall|k: int|
                0 <= k < r ==> #[trigger] cells@[k]@ == (if from_end {
                    sweep_back(g0[k], rule)
                } else {
                    sweep_forward(g0[k], rule)
                }),
            forall|k: int| r <= k < cells@.len() ==> #[trigger] cells@[k]@ == g0[k],
            moved == exists|k: int|
                0 <= k < r && (if from_end {
                    sweep_back_moves(g0[k], rule)
                } else {
                    sweep_forward_moves(g0[k], rule)
                }),
        decreases cells@.len() - r,
    {
        let m = if from_end {
            sweep_line_back(&mut cells[r], SweepRule::SecondEmptyFirstFull)
        } else {
            sweep_line_forward(&mut cells[r], SweepRule::FirstEmptySecondFull)
        };
        moved = moved || m;
        r += 1;
    }
    proof {
        let d = if from_end {
            Direction::Right
        } else {
            Direction::Left
        };
        assert(rows_of(cells@) =~= fallen(g0, cols as int, d));
        if moved {
            let k = choose|k: int|
                0 <= k < r && (if from_end {
                    sweep_back_moves(g0[k], rule)
                } else {
                    sweep_forward_moves(g0[k], rule)
                });
            assert(falls(g0, cols as int, d)) by {
                if from_end {
                    assert(sweep_back_moves(g0[k], SweepRule::SecondEmptyFirstFull));
                } else {
                    assert(sweep_forward_moves(g0[k], SweepRule::FirstEmptySecondFull));
                }
            }
        }
    }
    moved
}


/// The message for a direction that is not one of the five names.
fn invalid_direction_message(s: &str) -> (m: String)
    ensures
        m@ == Direction::invalid_text(s@),
{
    let prefix = "Invalid direction: ";
    proof {
        reveal_strlit("Invalid direction: ");
        assert(prefix@ =~= seq!['I', 'n', 'v', 'a', 'l', 'i', 'd', ' ', 'd', 'i', 'r', 'e', 'c', 't', 'i', 'o', 'n', ':', ' ']);
    }
    String::from_str(prefix).concat(s)
}

/// `s` spells `word`.
fn spells(s: &str, word: &str) -> (r: bool)
    ensures
        r == (s@ == word@),
{
    let n = s.unicode_len();
    if n != word.unicode_len() {
        return false;
    }
    let mut i: usize = 0;
    while i < n
        invariant
            i <= n,
            n == s@.len(),
            n == word@.len(),
            forall|j: int| 0 <= j < i ==> s@[j] == word@[j],
        decreases n - i,
    {
        if s.get_char(i) != word.get_char(i) {
            return false;
        }
        i += 1;
    }
    assert(s@ =~= word@);
    true
}

impl Default for Direction {
    fn default() -> (d: Self)
        ensures
            d == Direction::Down,
    {
        Direction::Down
    }
}

impl Direction {
    /// The direction named `s`, or the message for a name that is not one.
    pub open spec fn parsed(s: Seq<char>) -> Option<Direction> {
        if s == seq!['u', 'p'] {
            Some(Direction::Up)
        } else if s == seq!['d', 'o', 'w', 'n'] {
            Some(Direction::Down)
        } else if s == seq!['l', 'e', 'f', 't'] {
            Some(Direction::Left)
        } else if s == seq!['r', 'i', 'g', 'h', 't'] {
            Some(Direction::Right)
        } else if s == seq!['r', 'a', 'n', 'd', 'o', 'm'] {
            Some(Direction::Random)
        } else {
            None
        }
    }

    /// The message for `s` when it names no direction.
    pub open spec fn invalid_text(s: Seq<char>) -> Seq<char> {
        seq!['I', 'n', 'v', 'a', 'l', 'i', 'd', ' ', 'd', 'i', 'r', 'e', 'c', 't', 'i', 'o', 'n', ':', ' '] + s
    }

    /// Reads a direction: `up`, `down`, `left`, `right` or `random`.
    pub fn parse(s: &str) -> (r: Result<Direction, String>)
        ensures
            match Self::parsed(s@) {
                Some(d) => r == Ok::<Direction, String>(d),
                None => r is Err && r->Err_0@ == Self::invalid_text(s@),
            },
    {
        proof {
            reveal_strlit("up");
            reveal_strlit("down");
            reveal_strlit("left");
            reveal_strlit("right");
            reveal_strlit("random");
            assert("up"@ =~= seq!['u', 'p']);
            assert("down"@ =~= seq!['d', 'o', 'w', 'n']);
            assert("left"@ =~= seq!['l', 'e', 'f', 't']);
            assert("right"@ =~= seq!['r', 'i', 'g', 'h', 't']);
            assert("random"@ =~= seq!['r', 'a', 'n', 'd', 'o', 'm']);
        }
        if spells(s, "up") {
            Ok(Direction::Up)
        } else if spells(s, "down") {
            Ok(Direction::Down)
        } else if spells(s, "left") {
            Ok(Direction::Left)
        } else if spells(s, "right") {
            Ok(Direction::Right)
        } else if spells(s, "random") {
            Ok(Direction::Random)
        } else {
            Err(invalid_direction_message(s))
        }
    }

    /// The direction that `pick` (in `0..4`) selects for `Random`: down, up,
    /// left, right; any other direction stays as it is.
    pub open spec fn resolved(self, pick: usize) -> Direction {
        match self {
            Direction::Random => if pick == 0 {
                Direction::Down
            } else if pick == 1 {
                Direction::Up
            } else if pick == 2 {
                Direction::Left
            } else {
                Direction::Right
            },
            d => d,
        }
    }

    /// The direction that `pick` selects for `Random`; any other direction
    /// stays as it is.
    pub fn resolve_with(self, pick: usize) -> (d: Direction)
        ensures
            d == self.resolved(pick),
    {
        match self {
            Direction::Random => match pick {
                0 => Direction::Down,
                1 => Direction::Up,
                2 => Direction::Left,
                _ => Direction::Right,
            },
            d => d,
        }
    }

    /// `Random` replaced by one of the four directions, drawn at random.
    pub fn resolve(self) -> (d: Direction)
        ensures
            exists|pick: usize| pick < 4 && d == self.resolved(pick),
            d != Direction::Random,
    {
        let pick = if self == Direction::Random {
            crate::random::random_below(4)
        } else {
            0
        };
        self.resolve_with(pick)
    }
}

impl std::str::FromStr for Direction {
    type Err = String;

    fn from_str(s: &str) -> (r: Result<Self, Self::Err>)
        ensures
            match Direction::parsed(s@) {
                Some(d) => r == Ok::<Direction, String>(d),
                None => r is Err && r->Err_0@ == Direction::invalid_text(s@),
            },
    {
        Direction::parse(s)
    }
}

/// Text that falls towards one side of the screen.
pub struct Collapse {
    /// Where the text falls.
    pub direction: Direction,
    /// How many ticks in a row no pair of cells has traded places.
    pub ticks_without_motion: usize,
}

impl Default for Collapse {
    fn default() -> (c: Self)
        ensures
            c.direction == Direction::Down,
            c.ticks_without_motion == 0,
    {
        Self::new()
    }
}

impl Collapse {
    /// Text falling down, with nothing settled yet.
    pub fn new() -> (c: Self)
        ensures
            c.direction == Direction::Down,
            c.ticks_without_motion == 0,
    {
        Self { direction: Direction::Down, ticks_without_motion: 0 }
    }

    /// Applies the configured direction name, if there is one. An invalid
    /// name leaves the direction unchanged and returns the message.
    pub fn configure(&mut self, direction: Option<&str>) -> (r: Result<(), String>)
        ensures
            final(self).ticks_without_motion == old(self).ticks_without_motion,
            match direction {
                None => r is Ok && final(self).direction == old(self).direction,
                Some(s) => match Direction::parsed(s@) {
                    Some(d) => r is Ok && final(self).direction == d,
                    None => r is Err && final(self).direction == old(self).direction,
                },
            },
    {
        match direction {
            None => Ok(()),
            Some(s) => match Direction::parse(s) {
                Ok(dir) => {
                    self.direction = dir;
                    Ok(())
                },
                Err(e) => Err(e),
            },
        }
    }

    /// One tick towards `direction`: sweeps the frame, then counts the tick
    /// as still when no pair of cells traded places and restarts the count
    /// when some pair did. Falling up or down, two neighbouring empty cells
    /// of a column trade places too, so such a tick counts as motion though
    /// no glyph moves. A frame without rows is left as it is, and so is the
    /// count.
    pub fn update_towards<T>(&mut self, cells: &mut Vec<Vec<GridCell<T>>>, direction: Direction)
        requires
            direction != Direction::Random,
            old(cells)@.len() > 0 ==> is_rectangular(rows_of(old(cells)@), old(cells)@[0]@.len() as int),
            old(self).ticks_without_motion < usize::MAX,
        ensures
            final(self).direction == old(self).direction,
            old(cells)@.len() == 0 ==> *final(cells) == *old(cells) && final(self).ticks_without_motion
                == old(self).ticks_without_motion,
            old(cells)@.len() > 0 ==> {
                let g = rows_of(old(cells)@);
                let cols = old(cells)@[0]@.len() as int;
                &&& rows_of(final(cells)@) == fallen(g, cols, direction)
                &&& final(self).ticks_without_motion == if falls(g, cols, direction) {
                    0
                } else {
                    old(self).ticks_without_motion + 1
                }
            },
    {
        if cells.len() == 0 {
            return;
        }
        let cols = cells[0].len();
        assert(rows_of(cells@)[0] == cells@[0]@);
        let moved = match direction {
            Direction::Down => sweep_columns(cells, cols, true),
            Direction::Up => sweep_columns(cells, cols, false),
            Direction::Right => sweep_rows(cells, cols, true),
            Direction::Left => sweep_rows(cells, cols, false),
            Direction::Random => false,
        };
        if !moved {
            self.ticks_without_motion += 1;
        } else {
            self.ticks_without_motion = 0;
        }
    }

    /// One tick: resolves the direction (drawing one at random for `Random`)
    /// and sweeps the frame towards it.
    pub fn update<T>(&mut self, cells: &mut Vec<Vec<GridCell<T>>>)
        requires
            old(cells)@.len() > 0 ==> is_rectangular(rows_of(old(cells)@), old(cells)@[0]@.len() as int),
            old(self).ticks_without_motion < usize::MAX,
        ensures
            final(self).direction == old(self).direction,
            old(cells)@.len() == 0 ==> *final(cells) == *old(cells) && final(self).ticks_without_motion
                == old(self).ticks_without_motion,
            old(cells)@.len() > 0 ==> exists|pick: usize|
                #![trigger old(self).direction.resolved(pick)]
                pick < 4 && {
                    let d = old(self).direction.resolved(pick);
                    let g = rows_of(old(cells)@);
                    let cols = old(cells)@[0]@.len() as int;
                    &&& rows_of(final(cells)@) == fallen(g, cols, d)
                    &&& final(self).ticks_without_motion == if falls(g, cols, d) {
                        0
                    } else {
                        old(self).ticks_without_motion + 1
                    }
                },
    {
        let direction = self.direction.resolve();
        self.update_towards(cells, direction);
    }

    /// The text has settled: no pair of cells has traded places for 50 ticks
    /// in a row (falling up or down, a column with two neighbouring empty
    /// cells keeps trading them, so such a frame never settles).
    pub fn is_done(&self) -> (r: bool)
        ensures
            r == (self.ticks_without_motion >= 50),
    {
        self.ticks_without_motion >= 50
    }
}


// ---------------------------------------------------------------------------
// Laws
// ---------------------------------------------------------------------------

/// Exchanging two cells keeps the cells of the line.
pub proof fn lemma_swapped_keeps_cells<A>(s: Seq<A>, i: int, j: int)
    requires
        0 <= i < s.len(),
        0 <= j < s.len(),
    ensures
        swapped(s, i, j).to_multiset() == s.to_multiset(),
{
    broadcast use vstd::seq_lib::to_multiset_update, vstd::multiset::group_multiset_axioms;

    let s1 = s.update(i, s[j]);
    assert(s1.to_multiset() == s.to_multiset().insert(s[j]).remove(s[i]));
    assert(s1[j] == if i == j { s[j] } else { s[j] });
    assert(s1.update(j, s[i]).to_multiset() == s1.to_multiset().insert(s[i]).remove(s1[j]));
    let m = s.to_multiset();
    s.to_multiset_ensures();
    assert(s.contains(s[i]) && s.contains(s[j]));
    assert(m.count(s[i]) > 0 && m.count(s[j]) > 0);
    assert forall|x: A| #[trigger] s1.update(j, s[i]).to_multiset().count(x) == m.count(x) by {}
    assert(s1.update(j, s[i]).to_multiset() =~= m);
}

/// A sweep from the end only rearranges the cells of the line: none is
/// lost, none is duplicated.
pub proof fn lemma_sweep_back_keeps_cells<T>(s: Seq<GridCell<T>>, rule: SweepRule)
    ensures
        sweep_back(s, rule).to_multiset() == s.to_multiset(),
    decreases s.len(),
{
    broadcast use vstd::seq_lib::group_to_multiset_ensures;

    if s.len() >= 2 {
        let i = s.len() - 1;
        let s1 = if trades(rule, s[i - 1], s[i]) {
            swapped(s, i - 1, i)
        } else {
            s
        };
        if trades(rule, s[i - 1], s[i]) {
            lemma_swapped_keeps_cells(s, i - 1, i);
        }
        lemma_sweep_back_keeps_cells(s1.take(i), rule);
        assert(s1.take(i).push(s1[i]) =~= s1);
        assert(sweep_back(s1.take(i), rule).push(s1[i]).to_multiset() == sweep_back(
            s1.take(i),
            rule,
        ).to_multiset().insert(s1[i]));
        assert(s1.take(i).push(s1[i]).to_multiset() == s1.take(i).to_multiset().insert(s1[i]));
    }
}

/// A sweep from the start only rearranges the cells of the line: none is
/// lost, none is duplicated.
pub proof fn lemma_sweep_forward_keeps_cells<T>(s: Seq<GridCell<T>>, rule: SweepRule)
    ensures
        sweep_forward(s, rule).to_multiset() == s.to_multiset(),
    decreases s.len(),
{
    broadcast use vstd::seq_lib::group_to_multiset_ensures, vstd::seq_lib::lemma_multiset_commutative;

    if s.len() >= 2 {
        let s1 = if trades(rule, s[0], s[1]) {
            swapped(s, 0, 1)
        } else {
            s
        };
        if trades(rule, s[0], s[1]) {
            lemma_swapped_keeps_cells(s, 0, 1);
        }
        lemma_sweep_forward_keeps_cells(s1.skip(1), rule);
        assert(seq![s1[0]] + s1.skip(1) =~= s1);
        vstd::seq_lib::lemma_multiset_commutative(seq![s1[0]], s1.skip(1));
        vstd::seq_lib::lemma_multiset_commutative(seq![s1[0]], sweep_forward(s1.skip(1), rule));
    }
}

/// The glyphs of a line: its non-empty cells, in order.
pub open spec fn glyphs<T>(s: Seq<GridCell<T>>) -> Seq<GridCell<T>> {
    s.filter(|c: GridCell<T>| !c.empty)
}

/// Two neighbouring cells that trade places under any rule keep the order
/// of the glyphs: at least one of the two is empty.
proof fn lemma_trade_keeps_glyphs<T>(s: Seq<GridCell<T>>, i: int, rule: SweepRule)
    requires
        1 <= i < s.len(),
        trades(rule, s[i - 1], s[i]),
    ensures
        glyphs(swapped(s, i - 1, i)) == glyphs(s),
{
    let pred = |c: GridCell<T>| !c.empty;
    let a = s.take(i - 1);
    let b = s.skip(i + 1);
    let x = s[i - 1];
    let y = s[i];
    assert(s =~= a + seq![x, y] + b);
    assert(swapped(s, i - 1, i) =~= a + seq![y, x] + b);
    Seq::filter_distributes_over_add(a + seq![x, y], b, pred);
    Seq::filter_distributes_over_add(a, seq![x, y], pred);
    Seq::filter_distributes_over_add(a + seq![y, x], b, pred);
    Seq::filter_distributes_over_add(a, seq![y, x], pred);
    reveal_with_fuel(Seq::filter, 3);
    assert(seq![x, y].drop_last() =~= seq![x]);
    assert(seq![y, x].drop_last() =~= seq![y]);
    assert(seq![x].drop_last() =~= Seq::<GridCell<T>>::empty());
    assert(seq![y].drop_last() =~= Seq::<GridCell<T>>::empty());
    assert(seq![x, y].filter(pred) =~= seq![y, x].filter(pred));
}

/// A sweep from the end keeps the glyphs of the line in their order: it only
/// moves glyphs past empty cells.
pub proof fn lemma_sweep_back_keeps_glyph_order<T>(s: Seq<GridCell<T>>, rule: SweepRule)
    ensures
        glyphs(sweep_back(s, rule)) == glyphs(s),
    decreases s.len(),
{
    let pred = |c: GridCell<T>| !c.empty;
    if s.len() >= 2 {
        let i = s.len() - 1;
        let s1 = if trades(rule, s[i - 1], s[i]) {
            swapped(s, i - 1, i)
        } else {
            s
        };
        if trades(rule, s[i - 1], s[i]) {
            lemma_trade_keeps_glyphs(s, i, rule);
        }
        lemma_sweep_back_keeps_glyph_order(s1.take(i), rule);
        assert(s1.take(i).push(s1[i]) =~= s1);
        assert(s1.take(i) + seq![s1[i]] =~= s1);
        assert(sweep_back(s1.take(i), rule).push(s1[i]) =~= sweep_back(s1.take(i), rule) + seq![s1[i]]);
        Seq::filter_distributes_over_add(sweep_back(s1.take(i), rule), seq![s1[i]], pred);
        Seq::filter_distributes_over_add(s1.take(i), seq![s1[i]], pred);
    }
}

/// A sweep from the start keeps the glyphs of the line in their order: it
/// only moves glyphs past empty cells.
pub proof fn lemma_sweep_forward_keeps_glyph_order<T>(s: Seq<GridCell<T>>, rule: SweepRule)
    ensures
        glyphs(sweep_forward(s, rule)) == glyphs(s),
    decreases s.len(),
{
    let pred = |c: GridCell<T>| !c.empty;
    if s.len() >= 2 {
        let s1 = if trades(rule, s[0], s[1]) {
            swapped(s, 0, 1)
        } else {
            s
        };
        if trades(rule, s[0], s[1]) {
            lemma_trade_keeps_glyphs(s, 1, rule);
        }
        lemma_sweep_forward_keeps_glyph_order(s1.skip(1), rule);
        assert(seq![s1[0]] + s1.skip(1) =~= s1);
        Seq::filter_distributes_over_add(seq![s1[0]], sweep_forward(s1.skip(1), rule), pred);
        Seq::filter_distributes_over_add(seq![s1[0]], s1.skip(1), pred);
    }
}

/// Some cell after position `i` of the line is empty.
pub open spec fn empty_after<T>(s: Seq<GridCell<T>>, i: int) -> bool {
    exists|j: int| i < j < s.len() && (#[trigger] s[j]).empty
}

/// Some cell before position `i` of the line is empty.
pub open spec fn empty_before<T>(s: Seq<GridCell<T>>, i: int) -> bool {
    exists|j: int| 0 <= j < i && (#[trigger] s[j]).empty
}

/// One sweep from the end, falling towards the end (down a column, or right
/// along a row): each glyph with an empty cell somewhere after it moves one
/// step towards the end, and each glyph with none stays where it is.
pub proof fn lemma_sweep_back_moves_glyphs_one_step<T>(s: Seq<GridCell<T>>, rule: SweepRule, i: int)
    requires
        rule == SweepRule::SecondEmpty || rule == SweepRule::SecondEmptyFirstFull,
        0 <= i < s.len(),
        !s[i].empty,
    ensures
        empty_after(s, i) ==> sweep_back(s, rule)[i + 1] == s[i],
        !empty_after(s, i) ==> sweep_back(s, rule)[i] == s[i],
    decreases s.len(),
{
    lemma_sweep_back_len(s, rule);
    if s.len() >= 2 {
        let n = s.len() - 1;
        let t = trades(rule, s[n - 1], s[n]);
        let s1 = if t {
            swapped(s, n - 1, n)
        } else {
            s
        };
        let pre = s1.take(n);
        lemma_sweep_back_len(pre, rule);
        assert(sweep_back(s, rule) == sweep_back(pre, rule).push(s1[n]));
        if i == n {
            // the last cell is a glyph: nothing comes after it
            assert(!t);
            assert(!empty_after(s, i));
        } else if i == n - 1 {
            if s[n].empty {
                assert(t);
                assert(empty_after(s, i));
            } else {
                assert(!t);
                assert(!empty_after(s, i));
                assert(pre[i] == s[i]);
                lemma_sweep_back_moves_glyphs_one_step(pre, rule, i);
                assert(!empty_after(pre, i));
            }
        } else {
            assert(pre[i] == s[i]);
            lemma_sweep_back_moves_glyphs_one_step(pre, rule, i);
            if s[n].empty {
                // the cell before the last is empty once the last pair is done
                assert(pre[n - 1].empty);
                assert(empty_after(pre, i));
                assert(empty_after(s, i));
            } else {
                assert(!t);
                if empty_after(s, i) {
                    let j = choose|j: int| i < j < s.len() && (#[trigger] s[j]).empty;
                    assert(j < n);
                    assert(pre[j].empty);
                    assert(empty_after(pre, i));
                } else {
                    assert forall|j: int| i < j < pre.len() implies !(#[trigger] pre[j]).empty by {
                        assert(pre[j] == s[j]);
                    }
                    assert(!empty_after(pre, i));
                }
            }
        }
    }
}

/// One sweep from the start, falling towards the start (up a column, or
/// left along a row): each glyph with an empty cell somewhere before it moves
/// one step towards the start, and each glyph with none stays where it is.
pub proof fn lemma_sweep_forward_moves_glyphs_one_step<T>(s: Seq<GridCell<T>>, rule: SweepRule, i: int)
    requires
        rule == SweepRule::FirstEmpty || rule == SweepRule::FirstEmptySecondFull,
        0 <= i < s.len(),
        !s[i].empty,
    ensures
        empty_before(s, i) ==> sweep_forward(s, rule)[i - 1] == s[i],
        !empty_before(s, i) ==> sweep_forward(s, rule)[i] == s[i],
    decreases s.len(),
{
    lemma_sweep_forward_len(s, rule);
    if s.len() >= 2 {
        let t = trades(rule, s[0], s[1]);
        let s1 = if t {
            swapped(s, 0, 1)
        } else {
            s
        };
        let post = s1.skip(1);
        lemma_sweep_forward_len(post, rule);
        assert(sweep_forward(s, rule) == seq![s1[0]] + sweep_forward(post, rule));
        if i == 0 {
            assert(!t);
            assert(!empty_before(s, i));
        } else if i == 1 {
            if s[0].empty {
                assert(t);
                assert(empty_before(s, i));
            } else {
                assert(!t);
                assert(!empty_before(s, i));
                assert(post[0] == s[1]);
                lemma_sweep_forward_moves_glyphs_one_step(post, rule, 0);
                assert(!empty_before(post, 0));
            }
        } else {
            assert(post[i - 1] == s[i]);
            lemma_sweep_forward_moves_glyphs_one_step(post, rule, i - 1);
            if s[0].empty {
                assert(post[0].empty);
                assert(empty_before(post, i - 1));
                assert(empty_before(s, i));
            } else {
                assert(!t);
                if empty_before(s, i) {
                    let j = choose|j: int| 0 <= j < i && (#[trigger] s[j]).empty;
                    assert(j > 0);
                    assert(post[j - 1].empty);
                    assert(empty_before(post, i - 1));
                } else {
                    assert forall|j: int| 0 <= j < i - 1 implies !(#[trigger] post[j]).empty by {
                        assert(post[j] == s[j + 1]);
                    }
                    assert(!empty_before(post, i - 1));
                }
            }
        }
    }
}

/// One tick of falling only moves cells along their line: afterwards each
/// column (falling up or down) or each row (falling left or right) holds
/// the same cells as before, so no text is lost or duplicated.
pub proof fn lemma_fall_keeps_cells<T>(g: Seq<Seq<GridCell<T>>>, cols: int, direction: Direction)
    requires
        is_rectangular(g, cols),
        cols >= 0,
    ensures
        fallen(g, cols, direction).len() == g.len(),
        is_rectangular(fallen(g, cols, direction), cols),
        direction is Down || direction is Up ==> forall|c: int|
            0 <= c < cols ==> #[trigger] column(fallen(g, cols, direction), c).to_multiset() == column(
                g,
                c,
            ).to_multiset(),
        direction is Left || direction is Right ==> forall|r: int|
            0 <= r < g.len() ==> (#[trigger] fallen(g, cols, direction)[r]).to_multiset()
                == g[r].to_multiset(),
{
    let f = fallen(g, cols, direction);
    match direction {
        Direction::Down | Direction::Up => {
            assert forall|c: int| 0 <= c < cols implies #[trigger] column(f, c).to_multiset() == column(
                g,
                c,
            ).to_multiset() by {
                if direction is Down {
                    lemma_sweep_back_len(column(g, c), SweepRule::SecondEmpty);
                    lemma_sweep_back_keeps_cells(column(g, c), SweepRule::SecondEmpty);
                    assert(column(f, c) =~= sweep_back(column(g, c), SweepRule::SecondEmpty));
                } else {
                    lemma_sweep_forward_len(column(g, c), SweepRule::FirstEmpty);
                    lemma_sweep_forward_keeps_cells(column(g, c), SweepRule::FirstEmpty);
                    assert(column(f, c) =~= sweep_forward(column(g, c), SweepRule::FirstEmpty));
                }
            }
        },
        Direction::Right => {
            assert forall|r: int| 0 <= r < g.len() implies (#[trigger] f[r]).to_multiset()
                == g[r].to_multiset() && f[r].len() == cols by {
                lemma_sweep_back_keeps_cells(g[r], SweepRule::SecondEmptyFirstFull);
                lemma_sweep_back_len(g[r], SweepRule::SecondEmptyFirstFull);
            }
        },
        Direction::Left => {
            assert forall|r: int| 0 <= r < g.len() implies (#[trigger] f[r]).to_multiset()
                == g[r].to_multiset() && f[r].len() == cols by {
                lemma_sweep_forward_keeps_cells(g[r], SweepRule::FirstEmptySecondFull);
                lemma_sweep_forward_len(g[r], SweepRule::FirstEmptySecondFull);
            }
        },
        Direction::Random => {},
    }
}

} // verus!
