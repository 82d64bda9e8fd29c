//! Conway's Game of Life played on the glyphs of the screen: a glyph is a
//! live cell, and a cell born between three live ones inherits each of its
//! glyph, colors and attributes from one of them.

use std::collections::HashMap;
use vstd::prelude::*;

verus! {

/// What becomes of one cell in a generation.
#[derive(Clone, Copy, Debug, PartialEq, Eq)]
pub enum Fate {
    /// The cell keeps what it holds: a live cell survives, an empty one stays
    /// empty.
    Stays,
    /// The live cell dies and the cell becomes empty.
    Dies,
    /// A new cell is born from the three live neighbours at these positions
    /// (row, column), in reading order.
    Born([(usize, usize); 3]),
}

/// Where a newborn cell takes each of its traits from: the positions of the
/// parents that pass on the glyph, the foreground color, the background
/// color and the text attributes.
#[derive(Clone, Copy, Debug, PartialEq, Eq)]
pub struct Inheritance {
    pub glyph_from: (usize, usize),
    pub fg_from: (usize, usize),
    pub bg_from: (usize, usize),
    pub flags_from: (usize, usize),
}

/// The neighbour with number `n` of (`r`, `c`): the 3x3 block around the
/// cell read row by row, `n` = 4 being the cell itself.
pub open spec fn neighbour(r: int, c: int, n: int) -> (int, int) {
    (r + n / 3 - 1, c + n % 3 - 1)
}

/// The cell at (`r`, `c`) lies on the board and is alive.
pub open spec fn alive_at(g: Seq<Seq<bool>>, cols: int, r: int, c: int) -> bool {
    0 <= r < g.len() && 0 <= c < cols && g[r][c]
}

/// The live neighbours among the first `n` of (`r`, `c`), in reading order.
pub open spec fn live_neighbours_upto(g: Seq<Seq<bool>>, cols: int, r: int, c: int, n: int) -> Seq<
    (int, int),
>
    decreases n,
{
    if n <= 0 {
        Seq::empty()
    } else {
        let prev = live_neighbours_upto(g, cols, r, c, n - 1);
        let p = neighbour(r, c, n - 1);
        if n - 1 != 4 && alive_at(g, cols, p.0, p.1) {
            prev.push(p)
        } else {
            prev
        }
    }
}

/// The live neighbours of (`r`, `c`), in reading order.
pub open spec fn live_neighbours(g: Seq<Seq<bool>>, cols: int, r: int, c: int) -> Seq<(int, int)> {
    live_neighbours_upto(g, cols, r, c, 9)
}

/// The rules of life: a live cell with two or three live neighbours
/// survives and otherwise dies; an empty cell with exactly three live
/// neighbours gets a new cell born from them; any other empty cell stays
/// empty.
pub open spec fn fate_of(g: Seq<Seq<bool>>, cols: int, r: int, c: int) -> Fate {
    let ns = live_neighbours(g, cols, r, c);
    if g[r][c] {
        if ns.len() == 2 || ns.len() == 3 {
            Fate::Stays
        } else {
            Fate::Dies
        }
    } else if ns.len() == 3 {
        Fate::Born(
            [
                (ns[0].0 as usize, ns[0].1 as usize),
                (ns[1].0 as usize, ns[1].1 as usize),
                (ns[2].0 as usize, ns[2].1 as usize),
            ],
        )
    } else {
        Fate::Stays
    }
}

/// The board as sequences.
pub open spec fn board_of(alive: Seq<Vec<bool>>) -> Seq<Seq<bool>> {
    alive.map_values(|row: Vec<bool>| row@)
}

/// Every row of the board has `cols` cells.
pub open spec fn board_is_rectangular(g: Seq<Seq<bool>>, cols: int) -> bool {
    forall|r: int| 0 <= r < g.len() ==> (#[trigger] g[r]).len() == cols
}

/// `i + d - 1` when it lies in `0..bound`.
fn shifted(i: usize, d: usize, bound: usize) -> (r: Option<usize>)
    requires
        i < bound,
        d < 3,
    ensures
        r is Some <==> 0 <= i + d - 1 < bound,
        r matches Some(v) ==> v == i + d - 1,
{
    if d == 0 {
        if i == 0 {
            None
        } else {
            Some(i - 1)
        }
    } else if d == 1 {
        Some(i)
    } else if i + 1 < bound {
        Some(i + 1)
    } else {
        None
    }
}

/// The live neighbours of (`r`, `c`) on a board of `rows` rows and `cols`
/// columns, in reading order.
fn collect_live_neighbours(alive: &Vec<Vec<bool>>, rows: usize, cols: usize, r: usize, c: usize) -> (ns:
    Vec<(usize, usize)>)
    requires
        rows == alive@.len(),
        board_is_rectangular(board_of(alive@), cols as int),
        r < rows,
        c < cols,
    ensures
        ns@.len() == live_neighbours(board_of(alive@), cols as int, r as int, c as int).len(),
        forall|k: int|
            0 <= k < ns@.len() ==> ns@[k].0 == live_neighbours(board_of(alive@), cols as int, r as int, c as int)[k].0
                && ns@[k].1 == live_neighbours(board_of(alive@), cols as int, r as int, c as int)[k].1,
{
    let ghost g = board_of(alive@);
    let mut ns: Vec<(usize, usize)> = Vec::new();
    let mut n: usize = 0;
    while n < 9
        invariant
            n <= 9,
            g == board_of(alive@),
            rows == alive@.len(),
            board_is_rectangular(g, cols as int),
            r < rows,
            c < cols,
            ns@.len() == live_neighbours_upto(g, cols as int, r as int, c as int, n as int).len(),
            forall|k: int|
                0 <= k < ns@.len() ==> ns@[k].0 == live_neighbours_upto(g, cols as int, r as int, c as int, n as int)[k].0
                    && ns@[k].1 == live_neighbours_upto(g, cols as int, r as int, c as int, n as int)[k].1,
        decreases 9 - n,
    {
        // the neighbour is (r + n / 3 - 1, c + n % 3 - 1)
        if n != 4 {
            match (shifted(r, n / 3, rows), shifted(c, n % 3, cols)) {
                (Some(nr), Some(nc)) => {
                    assert(g[nr as int] == alive@[nr as int]@);
                    if alive[nr][nc] {
                        ns.push((nr, nc));
                    }
                },
                _ => {},
            }
        }
        n += 1;
    }
    ns
}

/// The fate of every cell of a board of live cells (`true`) and empty ones.
pub fn life_fates(alive: &Vec<Vec<bool>>) -> (fates: Vec<Vec<Fate>>)
    requires
        alive@.len() > 0 ==> board_is_rectangular(board_of(alive@), alive@[0]@.len() as int),
    ensures
        fates@.len() == alive@.len(),
        forall|r: int, c: int|
            0 <= r < alive@.len() && 0 <= c < alive@[r]@.len() ==> #[trigger] fates@[r]@[c]
                == fate_of(board_of(alive@), alive@[0]@.len() as int, r, c),
        forall|r: int| 0 <= r < alive@.len() ==> (#[trigger] fates@[r])@.len() == alive@[r]@.len(),
{
    let rows = alive.len();
    let mut fates: Vec<Vec<Fate>> = Vec::new();
    if rows == 0 {
        return fates;
    }
    let cols = alive[0].len();
    let ghost g = board_of(alive@);
    assert(g[0] == alive@[0]@);
    let mut y: usize = 0;
    while y < rows
        invariant
            y <= rows,
            rows == alive@.len(),
            rows > 0,
            g == board_of(alive@),
            cols == alive@[0]@.len(),
            board_is_rectangular(g, cols as int),
            fates@.len() == y,
            forall|r: int, c: int|
                0 <= r < y && 0 <= c < cols ==> #[trigger] fates@[r]@[c] == fate_of(g, cols as int, r, c),
            forall|r: int| 0 <= r < y ==> (#[trigger] fates@[r])@.len() == cols,
        decreases rows - y,
    {
        let mut row: Vec<Fate> = Vec::new();
        let mut x: usize = 0;
        assert(g[y as int] == alive@[y as int]@);
        while x < cols
            invariant
                x <= cols,
                y < rows,
                rows == alive@.len(),
                g == board_of(alive@),
                g[y as int] == alive@[y as int]@,
                board_is_rectangular(g, cols as int),
                row@.len() == x,
                forall|c: int| 0 <= c < x ==> #[trigger] row@[c] == fate_of(g, cols as int, y as int, c),
            decreases cols - x,
        {
            let is_alive = alive[y][x];
            let ns = collect_live_neighbours(alive, rows, cols, y, x);
            let ghost spec_ns = live_neighbours(g, cols as int, y as int, x as int);
            let num_alive = ns.len();
            let fate = if is_alive && (num_alive == 2 || num_alive == 3) {
                // cell survives
                Fate::Stays
            } else if !is_alive && num_alive == 3 {
                // cells reproduce
                Fate::Born([ns[0], ns[1], ns[2]])
            } else if is_alive {
                // cell dies
                Fate::Dies
            } else {
                Fate::Stays
            };
            proof {
                if !is_alive && num_alive == 3 {
                    lemma_live_neighbours_in_range(g, cols as int, y as int, x as int, 9);
                    assert(0 <= spec_ns[0].0 && 0 <= spec_ns[0].1);
                    assert(0 <= spec_ns[1].0 && 0 <= spec_ns[1].1);
                    assert(0 <= spec_ns[2].0 && 0 <= spec_ns[2].1);
                }
            }
            row.push(fate);
            x += 1;
        }
        fates.push(row);
        y += 1;
    }
    assert forall|r: int| 0 <= r < alive@.len() implies (#[trigger] fates@[r])@.len() == alive@[r]@.len() by {
        assert(g[r] == alive@[r]@);
    }
    fates
}

/// The live neighbours lie on the board.
pub proof fn lemma_live_neighbours_in_range(g: Seq<Seq<bool>>, cols: int, r: int, c: int, n: int)
    ensures
        forall|k: int|
            0 <= k < live_neighbours_upto(g, cols, r, c, n).len() ==> 0 <= #[trigger] live_neighbours_upto(
                g,
                cols,
                r,
                c,
                n,
            )[k].0 < g.len() && 0 <= live_neighbours_upto(g, cols, r, c, n)[k].1 < cols,
    decreases n,
{
    if n > 0 {
        lemma_live_neighbours_in_range(g, cols, r, c, n - 1);
        let prev = live_neighbours_upto(g, cols, r, c, n - 1);
        let cur = live_neighbours_upto(g, cols, r, c, n);
        assert forall|k: int| 0 <= k < cur.len() implies 0 <= #[trigger] cur[k].0 < g.len() && 0 <= cur[k].1 < cols by {
            if k < prev.len() {
                assert(cur[k] == prev[k]);
            }
        }
    }
}

/// 1 when the cell at (`r`, `c`) lies on the board and is alive, else 0.
pub open spec fn live(g: Seq<Seq<bool>>, cols: int, r: int, c: int) -> int {
    if 0 <= r < g.len() && 0 <= c < cols && g[r][c] {
        1
    } else {
        0
    }
}

/// The live cells among the eight around (`r`, `c`), counted one by one.
pub open spec fn live_around(g: Seq<Seq<bool>>, cols: int, r: int, c: int) -> int {
    live(g, cols, r - 1, c - 1) + live(g, cols, r - 1, c) + live(g, cols, r - 1, c + 1) + live(g, cols, r, c - 1)
        + live(g, cols, r, c + 1) + live(g, cols, r + 1, c - 1) + live(g, cols, r + 1, c) + live(
        g,
        cols,
        r + 1,
        c + 1,
    )
}

/// Each live neighbour found among the first `n` is a live cell of the
/// 3x3 block around (`r`, `c`) other than the cell itself.
proof fn lemma_live_neighbours_are_neighbours(g: Seq<Seq<bool>>, cols: int, r: int, c: int, n: int)
    requires
        n <= 9,
    ensures
        forall|k: int|
            0 <= k < live_neighbours_upto(g, cols, r, c, n).len() ==> {
                let p = #[trigger] live_neighbours_upto(g, cols, r, c, n)[k];
                &&& live(g, cols, p.0, p.1) == 1
                &&& -1 <= p.0 - r <= 1
                &&& -1 <= p.1 - c <= 1
                &&& !(p.0 == r && p.1 == c)
            },
    decreases n,
{
    if n > 0 {
        lemma_live_neighbours_are_neighbours(g, cols, r, c, n - 1);
        let prev = live_neighbours_upto(g, cols, r, c, n - 1);
        let cur = live_neighbours_upto(g, cols, r, c, n);
        assert forall|k: int| 0 <= k < cur.len() implies {
            let p = #[trigger] cur[k];
            &&& live(g, cols, p.0, p.1) == 1
            &&& -1 <= p.0 - r <= 1
            &&& -1 <= p.1 - c <= 1
            &&& !(p.0 == r && p.1 == c)
        } by {
            if k < prev.len() {
                assert(cur[k] == prev[k]);
            } else {
                let m = n - 1;
                assert(cur[k] == neighbour(r, c, m));
                if m == 0 {
                } else if m == 1 {
                } else if m == 2 {
                } else if m == 3 {
                } else if m == 5 {
                } else if m == 6 {
                } else if m == 7 {
                } else {
                    assert(m == 8);
                }
            }
        }
    }
}

/// The live neighbours number `live_around`.
proof fn lemma_live_neighbours_count(g: Seq<Seq<bool>>, cols: int, r: int, c: int)
    ensures
        live_neighbours(g, cols, r, c).len() == live_around(g, cols, r, c),
{
    let l = |n: int| live_neighbours_upto(g, cols, r, c, n).len() as int;
    assert(l(0) == 0);
    assert(l(1) == live(g, cols, r - 1, c - 1));
    assert(l(2) == l(1) + live(g, cols, r - 1, c));
    assert(l(3) == l(2) + live(g, cols, r - 1, c + 1));
    assert(l(4) == l(3) + live(g, cols, r, c - 1));
    assert(l(5) == l(4));
    assert(l(6) == l(5) + live(g, cols, r, c + 1));
    assert(l(7) == l(6) + live(g, cols, r + 1, c - 1));
    assert(l(8) == l(7) + live(g, cols, r + 1, c));
    assert(l(9) == l(8) + live(g, cols, r + 1, c + 1));
}

/// The rules of life, with the neighbours counted one by one: a live cell
/// stays exactly when two or three of the eight cells around it are alive,
/// and dies otherwise; an empty cell gets a newborn exactly when three are
/// alive, each parent being one of those live neighbours, and otherwise
/// stays empty.
pub proof fn lemma_rules_of_life(g: Seq<Seq<bool>>, cols: int, r: int, c: int)
    requires
        0 <= r < g.len() <= usize::MAX,
        0 <= c < cols <= usize::MAX,
        board_is_rectangular(g, cols),
    ensures
        g[r][c] ==> (fate_of(g, cols, r, c) == Fate::Stays <==> (live_around(g, cols, r, c) == 2 || live_around(
            g,
            cols,
            r,
            c,
        ) == 3)),
        g[r][c] ==> (fate_of(g, cols, r, c) == Fate::Dies <==> !(live_around(g, cols, r, c) == 2 || live_around(
            g,
            cols,
            r,
            c,
        ) == 3)),
        !g[r][c] ==> (fate_of(g, cols, r, c) is Born <==> live_around(g, cols, r, c) == 3),
        !g[r][c] ==> (fate_of(g, cols, r, c) == Fate::Stays <==> live_around(g, cols, r, c) != 3),
        fate_of(g, cols, r, c) matches Fate::Born(ps) ==> forall|k: int|
            0 <= k < 3 ==> {
                let p = #[trigger] ps[k];
                &&& live(g, cols, p.0 as int, p.1 as int) == 1
                &&& -1 <= p.0 - r <= 1
                &&& -1 <= p.1 - c <= 1
                &&& !(p.0 == r && p.1 == c)
            },
{
    lemma_live_neighbours_count(g, cols, r, c);
    lemma_live_neighbours_are_neighbours(g, cols, r, c, 9);
    lemma_live_neighbours_in_range(g, cols, r, c, 9);
    let ns = live_neighbours(g, cols, r, c);
    if !g[r][c] && ns.len() == 3 {
        if let Fate::Born(ps) = fate_of(g, cols, r, c) {
            assert forall|k: int| 0 <= k < 3 implies {
                let p = #[trigger] ps[k];
                &&& live(g, cols, p.0 as int, p.1 as int) == 1
                &&& -1 <= p.0 - r <= 1
                &&& -1 <= p.1 - c <= 1
                &&& !(p.0 == r && p.1 == c)
            } by {
                let q = ns[k];
                assert(live(g, cols, q.0, q.1) == 1);
                assert(0 <= q.0 < g.len() && 0 <= q.1 < cols);
                if k == 0 {
                    assert(ps[0] == (ns[0].0 as usize, ns[0].1 as usize));
                } else if k == 1 {
                    assert(ps[1] == (ns[1].0 as usize, ns[1].1 as usize));
                } else {
                    assert(ps[2] == (ns[2].0 as usize, ns[2].1 as usize));
                }
            }
        }
    }
}

/// The standing of the game: how often each state of the screen has been
/// seen, and when a repeated state means the game is stuck.
pub struct Conway {
    /// How many times each state (by its hash) has been seen.
    pub state_cache: HashMap<u64, usize>,
    /// Game ticks per second.
    pub tick_rate: usize,
    /// How many times a state may be seen before the game counts as stuck.
    pub stale_ticks: usize,
    /// Some state has been seen `stale_ticks` times.
    pub is_stale: bool,
}

impl Conway {
    /// A fresh game: 10 ticks a second, stuck after seeing a state 15 times.
    pub fn new() -> (c: Self)
        ensures
            c.state_cache@ == Map::<u64, usize>::empty(),
            c.tick_rate == 10,
            c.stale_ticks == 15,
            !c.is_stale,
    {
        Self { state_cache: HashMap::new(), tick_rate: 10, stale_ticks: 15, is_stale: false }
    }

    /// Applies the configured values; a missing one takes its default (15
    /// repeats, 10 ticks a second). Values are converted to `usize` as the
    /// configuration reader does, wrapping negative ones.
    pub fn configure(&mut self, stale_ticks: Option<i64>, tick_rate: Option<i64>)
        ensures
            final(self).stale_ticks == match stale_ticks {
                Some(v) => v as usize,
                None => 15usize,
            },
            final(self).tick_rate == match tick_rate {
                Some(v) => (v as u64) as usize,
                None => 10usize,
            },
            final(self).state_cache@ == old(self).state_cache@,
            final(self).is_stale == old(self).is_stale,
    {
        let stale_ticks = match stale_ticks {
            Some(v) => v,
            None => 15,
        } as usize;
        let tick_rate = match tick_rate {
            Some(v) => v,
            None => 10,
        } as u64;
        self.stale_ticks = stale_ticks;
        self.tick_rate = tick_rate as usize;
    }

    /// How many times the state with this hash has been seen.
    pub open spec fn times_seen(&self, hash: u64) -> nat {
        if self.state_cache@.contains_key(hash) {
            self.state_cache@[hash] as nat
        } else {
            0
        }
    }

    /// Records one more sighting of the state with this hash; the game is
    /// stuck once a state has been seen `stale_ticks` times.
    pub fn hash_frame(&mut self, hash: u64)
        requires
            old(self).times_seen(hash) < usize::MAX,
        ensures
            final(self).state_cache@ == old(self).state_cache@.insert(
                hash,
                (old(self).times_seen(hash) + 1) as usize,
            ),
            final(self).is_stale == (old(self).is_stale || old(self).times_seen(hash) + 1
                >= old(self).stale_ticks),
            final(self).stale_ticks == old(self).stale_ticks,
            final(self).tick_rate == old(self).tick_rate,
    {
        broadcast use vstd::std_specs::hash::group_hash_axioms;

        let seen = match self.state_cache.get(&hash) {
            Some(n) => *n,
            None => 0,
        };
        let entry = seen + 1;
        self.state_cache.insert(hash, entry);
        if entry >= self.stale_ticks {
            // if we've seen this state this many times, it's probably not going to change anymore
            self.is_stale = true;
        }
    }

    /// The game is stuck.
    pub fn is_done(&self) -> (r: bool)
        ensures
            r == self.is_stale,
    {
        self.is_stale
    }

    /// Decides, at random, which of the three `parents` passes on each trait
    /// of a newborn cell.
    pub fn reproduce(parents: &[(usize, usize)]) -> (child: Inheritance)
        requires
            parents@.len() == 3,
        ensures
            parents@.contains(child.glyph_from),
            parents@.contains(child.fg_from),
            parents@.contains(child.bg_from),
            parents@.contains(child.flags_from),
    {
        let glyph_i = crate::random::random_below(3);
        let fg_i = crate::random::random_below(3);
        let bg_i = crate::random::random_below(3);
        let flags_i = crate::random::random_below(3);
        Self::inherit(parents, glyph_i, fg_i, bg_i, flags_i)
    }

    /// Which parents pass on each trait, given the choice for each.
    pub fn inherit(parents: &[(usize, usize)], glyph_i: usize, fg_i: usize, bg_i: usize, flags_i: usize) -> (child:
        Inheritance)
        requires
            glyph_i < parents@.len(),
            fg_i < parents@.len(),
            bg_i < parents@.len(),
            flags_i < parents@.len(),
        ensures
            child == (Inheritance {
                glyph_from: parents@[glyph_i as int],
                fg_from: parents@[fg_i as int],
                bg_from: parents@[bg_i as int],
                flags_from: parents@[flags_i as int],
            }),
    {
        Inheritance {
            glyph_from: parents[glyph_i],
            fg_from: parents[fg_i],
            bg_from: parents[bg_i],
            flags_from: parents[flags_i],
        }
    }
}

impl Default for Conway {
    fn default() -> (c: Self)
        ensures
            c.state_cache@ == Map::<u64, usize>::empty(),
            c.tick_rate == 10,
            c.stale_ticks == 15,
            !c.is_stale,
    {
        Self::new()
    }
}

} // verus!
