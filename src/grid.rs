use vstd::prelude::*;
use crate::config::{valid_dimensions, Config, MAX_HEIGHT, MAX_WIDTH};
use crate::util::RandomNumberGenerator;

verus! {

/// Largest number of rows and columns a board can have.
pub const MAX_ROWS: usize = 24;
pub const MAX_COLUMNS: usize = 30;

/// Bits of a square's flag byte, as `Square::flags` packs them.
pub const VISITED: u8 = 0b0000_0001;
pub const MINE: u8 = 0b0000_0010;
pub const FLAGGED: u8 = 0b0000_0100;
pub const Q_MARKED: u8 = 0b0000_1000;
pub const EXPLODED: u8 = MINE | VISITED;
pub const DO_NOT_UNCOVER: u8 = FLAGGED | MINE | VISITED;

/// Signals returned by `GameBoard::setup`.
pub const ADJUST: i32 = 1;
pub const RESIZE: i32 = 2;
pub const DISPLAY: i32 = 4;

/// Display codes of `GameBoard::get_display` besides the digits 1 to 8.
pub const DISPLAY_MINE: usize = 10;
pub const DISPLAY_BLANK: usize = 15;

/// Draws per mine before placement falls back to the first free square.
pub const MAX_DRAWS_PER_MINE: usize = 100_000;

/// One grid position. Flags and question marks are independent facets: a
/// square may carry both.
#[derive(Debug, Clone, Copy, PartialEq, Eq, Structural)]
pub struct Square {
    pub visited: bool,
    pub mine: bool,
    pub flagged: bool,
    pub q_marked: bool,
    /// Number of mines among the Moore neighbours; 0 on a mine.
    pub adjacent: u8,
}

pub open spec fn bit(b: bool, v: u8) -> u8 {
    if b {
        v
    } else {
        0
    }
}

/// The four facets packed into one byte.
pub open spec fn flags_of(s: Square) -> u8 {
    (bit(s.visited, VISITED) + bit(s.mine, MINE) + bit(s.flagged, FLAGGED) + bit(
        s.q_marked,
        Q_MARKED,
    )) as u8
}

impl Square {
    /// A covered square with no facet set.
    pub open spec fn blank_spec() -> Square {
        Square { visited: false, mine: false, flagged: false, q_marked: false, adjacent: 0 }
    }

    pub fn blank() -> (r: Square)
        ensures
            r == Square::blank_spec(),
    {
        Square { visited: false, mine: false, flagged: false, q_marked: false, adjacent: 0 }
    }

    pub fn flags(&self) -> (r: u8)
        ensures
            r == flags_of(*self),
    {
        let mut r: u8 = 0;
        if self.visited {
            r = r + VISITED;
        }
        if self.mine {
            r = r + MINE;
        }
        if self.flagged {
            r = r + FLAGGED;
        }
        if self.q_marked {
            r = r + Q_MARKED;
        }
        r
    }
}

/// Number of elements of `s` that satisfy `p`.
pub open spec fn count_matching(s: Seq<Square>, p: spec_fn(Square) -> bool) -> nat
    decreases s.len(),
{
    if s.len() == 0 {
        0
    } else {
        count_matching(s.drop_last(), p) + if p(s.last()) {
            1nat
        } else {
            0nat
        }
    }
}

pub open spec fn is_mine_pred() -> spec_fn(Square) -> bool {
    |q: Square| q.mine
}

/// A non-mine square that is still covered.
pub open spec fn covered_safe_pred() -> spec_fn(Square) -> bool {
    |q: Square| !q.mine && !q.visited
}

pub open spec fn mine_count(s: Seq<Square>) -> nat {
    count_matching(s, is_mine_pred())
}

pub open spec fn covered_safe_count(s: Seq<Square>) -> nat {
    count_matching(s, covered_safe_pred())
}

pub proof fn lemma_count_bounded(s: Seq<Square>, p: spec_fn(Square) -> bool)
    ensures
        count_matching(s, p) <= s.len(),
    decreases s.len(),
{
    if s.len() > 0 {
        lemma_count_bounded(s.drop_last(), p);
    }
}

/// Replacing one element changes the count by what the two elements contribute.
pub proof fn lemma_count_update(s: Seq<Square>, p: spec_fn(Square) -> bool, i: int, v: Square)
    requires
        0 <= i < s.len(),
    ensures
        count_matching(s.update(i, v), p) + (if p(s[i]) {
            1int
        } else {
            0int
        }) == count_matching(s, p) + (if p(v) {
            1int
        } else {
            0int
        }),
    decreases s.len(),
{
    let t = s.update(i, v);
    if i == s.len() - 1 {
        assert(t.drop_last() =~= s.drop_last());
    } else {
        assert(t.drop_last() =~= s.drop_last().update(i, v));
        lemma_count_update(s.drop_last(), p, i, v);
    }
}

/// A count of zero means that no element satisfies `p`, and conversely.
pub proof fn lemma_count_zero(s: Seq<Square>, p: spec_fn(Square) -> bool)
    ensures
        count_matching(s, p) == 0 <==> forall|i: int| 0 <= i < s.len() ==> !p(#[trigger] s[i]),
    decreases s.len(),
{
    if s.len() > 0 {
        lemma_count_zero(s.drop_last(), p);
        if count_matching(s, p) == 0 {
            assert forall|i: int| 0 <= i < s.len() implies !p(#[trigger] s[i]) by {
                if i < s.len() - 1 {
                    assert(s[i] == s.drop_last()[i]);
                }
            }
        }
        if forall|i: int| 0 <= i < s.len() ==> !p(#[trigger] s[i]) {
            assert forall|i: int| 0 <= i < s.drop_last().len() implies !p(
                #[trigger] s.drop_last()[i],
            ) by {
                assert(s.drop_last()[i] == s[i]);
            }
        }
    }
}

/// A count equal to the length means that every element satisfies `p`.
pub proof fn lemma_count_full(s: Seq<Square>, p: spec_fn(Square) -> bool)
    ensures
        count_matching(s, p) == s.len() <==> forall|i: int| 0 <= i < s.len() ==> p(#[trigger] s[i]),
    decreases s.len(),
{
    if s.len() > 0 {
        lemma_count_full(s.drop_last(), p);
        lemma_count_bounded(s.drop_last(), p);
        if count_matching(s, p) == s.len() {
            assert forall|i: int| 0 <= i < s.len() implies p(#[trigger] s[i]) by {
                if i < s.len() - 1 {
                    assert(s[i] == s.drop_last()[i]);
                }
            }
        }
        if forall|i: int| 0 <= i < s.len() ==> p(#[trigger] s[i]) {
            assert forall|i: int| 0 <= i < s.drop_last().len() implies p(
                #[trigger] s.drop_last()[i],
            ) by {
                assert(s.drop_last()[i] == s[i]);
            }
        }
    }
}

/// On a board with nothing uncovered, the covered safe squares are exactly
/// the squares that are not mines.
pub proof fn lemma_unvisited_split(s: Seq<Square>)
    requires
        forall|i: int| 0 <= i < s.len() ==> !(#[trigger] s[i]).visited,
    ensures
        covered_safe_count(s) + mine_count(s) == s.len(),
    decreases s.len(),
{
    if s.len() > 0 {
        assert forall|i: int| 0 <= i < s.drop_last().len() implies !(
        #[trigger] s.drop_last()[i]).visited by {
            assert(s.drop_last()[i] == s[i]);
        }
        lemma_unvisited_split(s.drop_last());
    }
}

/// Index of a square in the row-major grid.
pub open spec fn idx(cols: usize, r: usize, c: usize) -> int {
    r as int * cols as int + c as int
}

pub proof fn lemma_idx_bounds(rows: usize, cols: usize, r: usize, c: usize)
    requires
        r < rows,
        c < cols,
    ensures
        0 <= idx(cols, r, c) < rows as int * cols as int,
{
    assert(r as int * cols as int + c < rows as int * cols as int) by (nonlinear_arith)
        requires
            r < rows,
            c < cols,
    ;
}

/// The Moore neighbours of `(r, c)` inside a `rows` by `cols` grid, in the
/// order: row above (middle, left, right), left, right, row below (middle,
/// left, right).
pub open spec fn neighbors(rows: usize, cols: usize, r: usize, c: usize) -> Seq<(usize, usize)> {
    let up = r > 0;
    let down = r + 1 < rows;
    let left = c > 0;
    let right = c + 1 < cols;
    let above = if up {
        seq![((r - 1) as usize, c)] + (if left {
            seq![((r - 1) as usize, (c - 1) as usize)]
        } else {
            seq![]
        }) + (if right {
            seq![((r - 1) as usize, (c + 1) as usize)]
        } else {
            seq![]
        })
    } else {
        seq![]
    };
    let middle = (if left {
        seq![(r, (c - 1) as usize)]
    } else {
        seq![]
    }) + (if right {
        seq![(r, (c + 1) as usize)]
    } else {
        seq![]
    });
    let below = if down {
        seq![((r + 1) as usize, c)] + (if left {
            seq![((r + 1) as usize, (c - 1) as usize)]
        } else {
            seq![]
        }) + (if right {
            seq![((r + 1) as usize, (c + 1) as usize)]
        } else {
            seq![]
        })
    } else {
        seq![]
    };
    above + middle + below
}

/// The orthogonal neighbours of `(r, c)`: above, left, right, below.
pub open spec fn neighbors_no_diag(rows: usize, cols: usize, r: usize, c: usize) -> Seq<
    (usize, usize),
> {
    (if r > 0 {
        seq![((r - 1) as usize, c)]
    } else {
        seq![]
    }) + (if c > 0 {
        seq![(r, (c - 1) as usize)]
    } else {
        seq![]
    }) + (if c + 1 < cols {
        seq![(r, (c + 1) as usize)]
    } else {
        seq![]
    }) + (if r + 1 < rows {
        seq![((r + 1) as usize, c)]
    } else {
        seq![]
    })
}

/// `(a, b)` is one of the up to eight squares around `(r, c)` on the grid.
pub open spec fn is_moore_neighbor(rows: usize, cols: usize, r: usize, c: usize, a: usize, b: usize) -> bool {
    &&& a < rows
    &&& b < cols
    &&& (a, b) != (r, c)
    &&& r - 1 <= a <= r + 1
    &&& c - 1 <= b <= c + 1
}

/// The enumeration above lists every Moore neighbour exactly once and
/// nothing else.
#[verifier::spinoff_prover]
#[verifier::rlimit(60)]
pub proof fn lemma_neighbors_are_moore(rows: usize, cols: usize, r: usize, c: usize)
    requires
        r < rows,
        c < cols,
    ensures
        neighbors(rows, cols, r, c).no_duplicates(),
        neighbors(rows, cols, r, c).len() <= 8,
        forall|k: int|
            0 <= k < neighbors(rows, cols, r, c).len() ==> is_moore_neighbor(
                rows,
                cols,
                r,
                c,
                (#[trigger] neighbors(rows, cols, r, c)[k]).0,
                neighbors(rows, cols, r, c)[k].1,
            ),
        forall|a: usize, b: usize|
            #[trigger] is_moore_neighbor(rows, cols, r, c, a, b) ==> neighbors(
                rows,
                cols,
                r,
                c,
            ).contains((a, b)),
{
    let s = neighbors(rows, cols, r, c);
    assert forall|a: usize, b: usize| #[trigger] is_moore_neighbor(rows, cols, r, c, a, b) implies s.contains((a, b)) by {
        let k: int = if a < r {
            if b == c { 0 } else if b < c { 1 } else if c > 0 { 2 } else { 1 }
        } else if a == r {
            let base: int = if r > 0 { 1 + (if c > 0 { 1int } else { 0 }) + (if c + 1 < cols { 1int } else { 0 }) } else { 0 };
            if b < c { base } else if c > 0 { base + 1 } else { base }
        } else {
            let base: int = (if r > 0 { 1 + (if c > 0 { 1int } else { 0 }) + (if c + 1 < cols { 1int } else { 0 }) } else { 0 })
                + (if c > 0 { 1int } else { 0 }) + (if c + 1 < cols { 1int } else { 0 });
            if b == c { base } else if b < c { base + 1 } else if c > 0 { base + 2 } else { base + 1 }
        };
        assert(s[k] == (a, b));
    }
}

/// Every index of the grid is the index of some position.
pub proof fn lemma_idx_of(rows: usize, cols: usize, i: int) -> (p: (usize, usize))
    requires
        0 <= i < rows as int * cols as int,
    ensures
        p.0 < rows,
        p.1 < cols,
        idx(cols, p.0, p.1) == i,
{
    let q = i / cols as int;
    let m = i % cols as int;
    vstd::arithmetic::div_mod::lemma_fundamental_div_mod(i, cols as int);
    assert(0 <= q < rows) by (nonlinear_arith)
        requires
            i == cols * q + m,
            0 <= m < cols,
            0 <= i < rows * cols,
    ;
    assert(q as usize as int * cols as int == cols as int * q) by (nonlinear_arith)
        requires
            0 <= q,
            q < rows,
    ;
    (q as usize, m as usize)
}

/// Two indices of distinct in-bounds positions differ.
pub proof fn lemma_idx_distinct(cols: usize, r1: usize, c1: usize, r2: usize, c2: usize)
    requires
        c1 < cols,
        c2 < cols,
        (r1, c1) != (r2, c2),
    ensures
        idx(cols, r1, c1) != idx(cols, r2, c2),
{
    if r1 == r2 {
    } else if r1 < r2 {
        assert(r1 as int * cols as int + cols as int <= r2 as int * cols as int) by (nonlinear_arith)
            requires
                r1 < r2,
        ;
    } else {
        assert(r2 as int * cols as int + cols as int <= r1 as int * cols as int) by (nonlinear_arith)
            requires
                r2 < r1,
        ;
    }
}

/// Counts of neighbouring mines depend on where the mines are, nothing else.
pub proof fn lemma_mines_unchanged(g1: Seq<Square>, g2: Seq<Square>, rows: usize, cols: usize)
    requires
        g1.len() == g2.len(),
        g1.len() == rows as int * cols as int,
        forall|i: int| 0 <= i < g1.len() ==> (#[trigger] g1[i]).mine == g2[i].mine,
    ensures
        forall|r: usize, c: usize|
            r < rows && c < cols ==> #[trigger] adjacent_mines(g1, rows, cols, r, c)
                == adjacent_mines(g2, rows, cols, r, c),
{
    assert forall|r: usize, c: usize| r < rows && c < cols implies #[trigger] adjacent_mines(
        g1,
        rows,
        cols,
        r,
        c,
    ) == adjacent_mines(g2, rows, cols, r, c) by {
        lemma_idx_bounds(rows, cols, r, c);
        lemma_neighbors_are_moore(rows, cols, r, c);
        lemma_mines_among_unchanged(g1, g2, rows, cols, r, c, neighbors(rows, cols, r, c));
    }
}

proof fn lemma_mines_among_unchanged(
    g1: Seq<Square>,
    g2: Seq<Square>,
    rows: usize,
    cols: usize,
    r: usize,
    c: usize,
    cells: Seq<(usize, usize)>,
)
    requires
        g1.len() == g2.len(),
        g1.len() == rows as int * cols as int,
        forall|i: int| 0 <= i < g1.len() ==> (#[trigger] g1[i]).mine == g2[i].mine,
        forall|k: int|
            0 <= k < cells.len() ==> is_moore_neighbor(
                rows,
                cols,
                r,
                c,
                (#[trigger] cells[k]).0,
                cells[k].1,
            ),
    ensures
        mines_among(g1, cols, cells) == mines_among(g2, cols, cells),
    decreases cells.len(),
{
    if cells.len() > 0 {
        let last = cells.last();
        assert(is_moore_neighbor(rows, cols, r, c, cells[cells.len() - 1].0, cells[cells.len() - 1].1));
        lemma_idx_bounds(rows, cols, last.0, last.1);
        assert forall|k: int| 0 <= k < cells.drop_last().len() implies is_moore_neighbor(
            rows,
            cols,
            r,
            c,
            (#[trigger] cells.drop_last()[k]).0,
            cells.drop_last()[k].1,
        ) by {
            assert(cells.drop_last()[k] == cells[k]);
        }
        lemma_mines_among_unchanged(g1, g2, rows, cols, r, c, cells.drop_last());
    }
}

/// Number of mines on the squares that `cells` lists.
pub open spec fn mines_among(g: Seq<Square>, cols: usize, cells: Seq<(usize, usize)>) -> nat
    decreases cells.len(),
{
    if cells.len() == 0 {
        0
    } else {
        mines_among(g, cols, cells.drop_last()) + if g[idx(cols, cells.last().0, cells.last().1)].mine {
            1nat
        } else {
            0nat
        }
    }
}

/// The count `calculate_adjacent_mines` stores: 0 on a mine, else the number
/// of mines among the Moore neighbours.
pub open spec fn adjacent_mines(g: Seq<Square>, rows: usize, cols: usize, r: usize, c: usize) -> nat {
    if g[idx(cols, r, c)].mine {
        0
    } else {
        mines_among(g, cols, neighbors(rows, cols, r, c))
    }
}

/// The square at `p` stops a flood fill: uncovered, a mine, or flagged.
pub open spec fn blocked(g: Seq<Square>, cols: usize, p: (usize, usize)) -> bool {
    let q = g[idx(cols, p.0, p.1)];
    q.visited || q.mine || q.flagged
}

/// `b` is `a`, or `a` uncovered where `a` was a covered, unflagged safe square.
pub open spec fn uncovers(a: Square, b: Square) -> bool {
    b == a || (b == Square { visited: true, ..a } && !a.visited && !a.mine && !a.flagged)
}

/// Going from `g1` to `g2` only uncovers covered, unflagged safe squares.
pub open spec fn only_uncovers(g1: Seq<Square>, g2: Seq<Square>) -> bool {
    &&& g1.len() == g2.len()
    &&& forall|i: int| 0 <= i < g1.len() ==> uncovers(g1[i], #[trigger] g2[i])
}

/// Every Moore neighbour of `(r, c)` stops a flood fill.
pub open spec fn closed_at(g: Seq<Square>, rows: usize, cols: usize, r: usize, c: usize) -> bool {
    forall|k: int|
        0 <= k < neighbors(rows, cols, r, c).len() ==> blocked(
            g,
            cols,
            #[trigger] neighbors(rows, cols, r, c)[k],
        )
}

/// If `(r, c)` went from covered in `g1` to uncovered in `g2` and has no
/// neighbouring mine, then all its neighbours are uncovered, mines or flagged.
pub open spec fn closed_if_new_blank(
    g1: Seq<Square>,
    g2: Seq<Square>,
    rows: usize,
    cols: usize,
    r: usize,
    c: usize,
) -> bool {
    let i = idx(cols, r, c);
    (!g1[i].visited && g2[i].visited && g2[i].adjacent == 0) ==> closed_at(g2, rows, cols, r, c)
}

/// Every blank square uncovered between `g1` and `g2` had its neighbours
/// uncovered too, unless a mine or a flag stopped it.
pub open spec fn region_closed(g1: Seq<Square>, g2: Seq<Square>, rows: usize, cols: usize) -> bool {
    forall|r: usize, c: usize|
        r < rows && c < cols ==> #[trigger] closed_if_new_blank(g1, g2, rows, cols, r, c)
}

pub proof fn lemma_only_uncovers_trans(g1: Seq<Square>, g2: Seq<Square>, g3: Seq<Square>)
    requires
        only_uncovers(g1, g2),
        only_uncovers(g2, g3),
    ensures
        only_uncovers(g1, g3),
{
    assert forall|i: int| 0 <= i < g1.len() implies uncovers(g1[i], #[trigger] g3[i]) by {
        assert(uncovers(g1[i], g2[i]));
        assert(uncovers(g2[i], g3[i]));
    }
}

/// Squares keep their mines, and the number of mines stays the same.
pub proof fn lemma_only_uncovers_mines(g1: Seq<Square>, g2: Seq<Square>)
    requires
        only_uncovers(g1, g2),
    ensures
        mine_count(g1) == mine_count(g2),
        forall|i: int| 0 <= i < g1.len() ==> (#[trigger] g1[i]).mine == g2[i].mine,
    decreases g1.len(),
{
    assert forall|i: int| 0 <= i < g1.len() implies (#[trigger] g1[i]).mine == g2[i].mine by {
        assert(uncovers(g1[i], g2[i]));
    }
    if g1.len() > 0 {
        assert(uncovers(g1[g1.len() - 1], g2[g1.len() - 1]));
        assert forall|i: int| 0 <= i < g1.drop_last().len() implies uncovers(
            g1.drop_last()[i],
            #[trigger] g2.drop_last()[i],
        ) by {
            assert(uncovers(g1[i], g2[i]));
        }
        lemma_only_uncovers_mines(g1.drop_last(), g2.drop_last());
    }
}

/// Once every neighbour of a square stops a flood fill, uncovering more
/// squares keeps it so.
pub proof fn lemma_closed_mono(
    g1: Seq<Square>,
    g2: Seq<Square>,
    rows: usize,
    cols: usize,
    r: usize,
    c: usize,
)
    requires
        only_uncovers(g1, g2),
        g1.len() == rows as int * cols as int,
        r < rows,
        c < cols,
        closed_at(g1, rows, cols, r, c),
    ensures
        closed_at(g2, rows, cols, r, c),
{
    lemma_neighbors_are_moore(rows, cols, r, c);
    let nb = neighbors(rows, cols, r, c);
    assert forall|k: int| 0 <= k < nb.len() implies blocked(g2, cols, #[trigger] nb[k]) by {
        assert(is_moore_neighbor(rows, cols, r, c, nb[k].0, nb[k].1));
        lemma_idx_bounds(rows, cols, nb[k].0, nb[k].1);
        let i = idx(cols, nb[k].0, nb[k].1);
        assert(blocked(g1, cols, nb[k]));
        assert(uncovers(g1[i], g2[i]));
    }
}

/// Closure of two successive flood fills composes.
pub proof fn lemma_region_closed_trans(
    g1: Seq<Square>,
    g2: Seq<Square>,
    g3: Seq<Square>,
    rows: usize,
    cols: usize,
)
    requires
        only_uncovers(g1, g2),
        only_uncovers(g2, g3),
        g1.len() == rows as int * cols as int,
        region_closed(g1, g2, rows, cols),
        region_closed(g2, g3, rows, cols),
    ensures
        region_closed(g1, g3, rows, cols),
{
    assert forall|r: usize, c: usize| r < rows && c < cols implies #[trigger] closed_if_new_blank(
        g1,
        g3,
        rows,
        cols,
        r,
        c,
    ) by {
        lemma_idx_bounds(rows, cols, r, c);
        let i = idx(cols, r, c);
        assert(uncovers(g1[i], g2[i]));
        assert(uncovers(g2[i], g3[i]));
        assert(closed_if_new_blank(g1, g2, rows, cols, r, c));
        assert(closed_if_new_blank(g2, g3, rows, cols, r, c));
        if !g1[i].visited && g3[i].visited && g3[i].adjacent == 0 && g2[i].visited {
            lemma_closed_mono(g2, g3, rows, cols, r, c);
        }
    }
}

/// `(a, b)` is reached from `(sr, sc)` in `n` flood-fill steps on `g`: each
/// step goes to a Moore neighbour that does not stop a flood fill, from the
/// start or from a square with no neighbouring mine.
pub open spec fn flood_reach(
    g: Seq<Square>,
    rows: usize,
    cols: usize,
    sr: usize,
    sc: usize,
    a: usize,
    b: usize,
    n: nat,
) -> bool
    decreases n,
{
    if n == 0 {
        a == sr && b == sc
    } else {
        exists|x: usize, y: usize|
            flood_reach(g, rows, cols, sr, sc, x, y, (n - 1) as nat) && flood_step(
                g,
                rows,
                cols,
                sr,
                sc,
                x,
                y,
                a,
                b,
            )
    }
}

/// One flood-fill step from `(x, y)` to `(a, b)`.
pub open spec fn flood_step(
    g: Seq<Square>,
    rows: usize,
    cols: usize,
    sr: usize,
    sc: usize,
    x: usize,
    y: usize,
    a: usize,
    b: usize,
) -> bool {
    &&& ((x, y) == (sr, sc) || g[idx(cols, x, y)].adjacent == 0)
    &&& is_moore_neighbor(rows, cols, x, y, a, b)
    &&& !blocked(g, cols, (a, b))
}

/// Every square uncovered between `g1` and `g2` is reached from `(sr, sc)`
/// by flood-fill steps on `g1`.
pub open spec fn all_reached(
    g1: Seq<Square>,
    g2: Seq<Square>,
    rows: usize,
    cols: usize,
    sr: usize,
    sc: usize,
) -> bool {
    forall|a: usize, b: usize|
        a < rows && b < cols && !g1[idx(cols, a, b)].visited && #[trigger] g2[idx(
            cols,
            a,
            b,
        )].visited ==> exists|n: nat| flood_reach(g1, rows, cols, sr, sc, a, b, n)
}

/// A square reached from an in-bounds start lies on the grid.
pub proof fn lemma_reach_in_bounds(
    g: Seq<Square>,
    rows: usize,
    cols: usize,
    sr: usize,
    sc: usize,
    a: usize,
    b: usize,
    n: nat,
)
    requires
        sr < rows,
        sc < cols,
        flood_reach(g, rows, cols, sr, sc, a, b, n),
    ensures
        a < rows,
        b < cols,
{
    if n > 0 {
        let (x, y) = choose|x: usize, y: usize|
            flood_reach(g, rows, cols, sr, sc, x, y, (n - 1) as nat) && flood_step(
                g,
                rows,
                cols,
                sr,
                sc,
                x,
                y,
                a,
                b,
            );
        assert(is_moore_neighbor(rows, cols, x, y, a, b));
    }
}

/// Uncovering squares only removes flood-fill steps.
pub proof fn lemma_reach_mono(
    g0: Seq<Square>,
    g1: Seq<Square>,
    rows: usize,
    cols: usize,
    sr: usize,
    sc: usize,
    a: usize,
    b: usize,
    n: nat,
)
    requires
        only_uncovers(g0, g1),
        g0.len() == rows as int * cols as int,
        sr < rows,
        sc < cols,
        flood_reach(g1, rows, cols, sr, sc, a, b, n),
    ensures
        flood_reach(g0, rows, cols, sr, sc, a, b, n),
    decreases n,
{
    if n > 0 {
        let (x, y) = choose|x: usize, y: usize|
            flood_reach(g1, rows, cols, sr, sc, x, y, (n - 1) as nat) && flood_step(
                g1,
                rows,
                cols,
                sr,
                sc,
                x,
                y,
                a,
                b,
            );
        lemma_reach_mono(g0, g1, rows, cols, sr, sc, x, y, (n - 1) as nat);
        lemma_reach_in_bounds(g1, rows, cols, sr, sc, x, y, (n - 1) as nat);
        assert(is_moore_neighbor(rows, cols, x, y, a, b));
        lemma_idx_bounds(rows, cols, a, b);
        lemma_idx_bounds(rows, cols, x, y);
        assert(uncovers(g0[idx(cols, a, b)], g1[idx(cols, a, b)]));
        assert(uncovers(g0[idx(cols, x, y)], g1[idx(cols, x, y)]));
        assert(flood_step(g0, rows, cols, sr, sc, x, y, a, b));
    }
}

/// A flood fill that starts from a square reached in one step from
/// `(sr, sc)` reaches nothing that `(sr, sc)` does not.
pub proof fn lemma_reach_prefix(
    g0: Seq<Square>,
    g1: Seq<Square>,
    rows: usize,
    cols: usize,
    sr: usize,
    sc: usize,
    qr: usize,
    qc: usize,
    a: usize,
    b: usize,
    n: nat,
)
    requires
        only_uncovers(g0, g1),
        g0.len() == rows as int * cols as int,
        sr < rows,
        sc < cols,
        flood_step(g0, rows, cols, sr, sc, sr, sc, qr, qc),
        g0[idx(cols, qr, qc)].adjacent == 0,
        flood_reach(g1, rows, cols, qr, qc, a, b, n),
    ensures
        flood_reach(g0, rows, cols, sr, sc, a, b, n + 1),
    decreases n,
{
    if n == 0 {
        assert(flood_reach(g0, rows, cols, sr, sc, sr, sc, 0));
    } else {
        assert(exists|x: usize, y: usize|
            flood_reach(g1, rows, cols, qr, qc, x, y, (n - 1) as nat) && flood_step(
                g1,
                rows,
                cols,
                qr,
                qc,
                x,
                y,
                a,
                b,
            ));
        let (x, y) = choose|x: usize, y: usize|
            flood_reach(g1, rows, cols, qr, qc, x, y, (n - 1) as nat) && flood_step(
                g1,
                rows,
                cols,
                qr,
                qc,
                x,
                y,
                a,
                b,
            );
        lemma_reach_prefix(g0, g1, rows, cols, sr, sc, qr, qc, x, y, (n - 1) as nat);
        assert(is_moore_neighbor(rows, cols, sr, sc, qr, qc));
        lemma_reach_in_bounds(g1, rows, cols, qr, qc, x, y, (n - 1) as nat);
        assert(is_moore_neighbor(rows, cols, x, y, a, b));
        lemma_idx_bounds(rows, cols, a, b);
        lemma_idx_bounds(rows, cols, x, y);
        let ia = idx(cols, a, b);
        let ix = idx(cols, x, y);
        assert(uncovers(g0[ia], g1[ia]));
        assert(uncovers(g0[ix], g1[ix]));
        assert(flood_step(g0, rows, cols, sr, sc, x, y, a, b));
        assert(flood_reach(g0, rows, cols, sr, sc, x, y, n));
    }
}

/// Uncovering one more neighbour of the start keeps every uncovered square reached.
proof fn lemma_reached_after_step(
    g0: Seq<Square>,
    before: Seq<Square>,
    mid: Seq<Square>,
    rows: usize,
    cols: usize,
    row: usize,
    column: usize,
    a: usize,
    b: usize,
)
    requires
        g0.len() == rows as int * cols as int,
        row < rows,
        column < cols,
        is_moore_neighbor(rows, cols, row, column, a, b),
        only_uncovers(g0, before),
        !blocked(before, cols, (a, b)),
        mid == before.update(
            idx(cols, a, b),
            Square { visited: true, ..before[idx(cols, a, b)] },
        ),
        all_reached(g0, before, rows, cols, row, column),
    ensures
        all_reached(g0, mid, rows, cols, row, column),
{
    lemma_idx_bounds(rows, cols, a, b);
    assert forall|x: usize, y: usize|
        x < rows && y < cols && !g0[idx(cols, x, y)].visited && #[trigger] mid[idx(
            cols,
            x,
            y,
        )].visited implies exists|n: nat| flood_reach(g0, rows, cols, row, column, x, y, n) by {
        lemma_idx_bounds(rows, cols, x, y);
        if (x, y) == (a, b) {
            assert(uncovers(g0[idx(cols, a, b)], before[idx(cols, a, b)]));
            assert(flood_reach(g0, rows, cols, row, column, row, column, 0));
            assert(flood_step(g0, rows, cols, row, column, row, column, a, b));
            assert(flood_reach(g0, rows, cols, row, column, a, b, 1));
        } else {
            lemma_idx_distinct(cols, a, b, x, y);
            assert(before[idx(cols, x, y)].visited);
        }
    }
}

/// A flood fill from a blank neighbour of the start reaches only squares
/// that the start reaches.
proof fn lemma_reached_after_subfill(
    g0: Seq<Square>,
    mid: Seq<Square>,
    after: Seq<Square>,
    rows: usize,
    cols: usize,
    row: usize,
    column: usize,
    a: usize,
    b: usize,
)
    requires
        g0.len() == rows as int * cols as int,
        row < rows,
        column < cols,
        only_uncovers(g0, mid),
        only_uncovers(mid, after),
        flood_step(g0, rows, cols, row, column, row, column, a, b),
        g0[idx(cols, a, b)].adjacent == 0,
        all_reached(g0, mid, rows, cols, row, column),
        all_reached(mid, after, rows, cols, a, b),
    ensures
        all_reached(g0, after, rows, cols, row, column),
{
    assert forall|x: usize, y: usize|
        x < rows && y < cols && !g0[idx(cols, x, y)].visited && #[trigger] after[idx(
            cols,
            x,
            y,
        )].visited implies exists|n: nat| flood_reach(g0, rows, cols, row, column, x, y, n) by {
        lemma_idx_bounds(rows, cols, x, y);
        if mid[idx(cols, x, y)].visited {
            assert(mid[idx(cols, x, y)].visited);
        } else {
            assert(after[idx(cols, x, y)].visited);
            let n = choose|n: nat| flood_reach(mid, rows, cols, a, b, x, y, n);
            lemma_reach_prefix(g0, mid, rows, cols, row, column, a, b, x, y, n);
        }
    }
}

/// What the renderer draws for a square, whether or not it is uncovered.
pub open spec fn display_code(s: Square) -> usize {
    if s.mine {
        DISPLAY_MINE
    } else if s.adjacent == 0 {
        DISPLAY_BLANK
    } else {
        s.adjacent as usize
    }
}

/// The text symbol of a square: `M` for a mine, `X` for an uncovered square
/// with no neighbouring mine, else the digit of its count.
pub open spec fn symbol_of(s: Square) -> char {
    if s.mine {
        'M'
    } else if s.adjacent == 0 && s.visited {
        'X'
    } else {
        digit_char(s.adjacent)
    }
}

/// The decimal digit for a count of at most 9.
pub open spec fn digit_char(d: u8) -> char {
    if d == 0 { '0' } else if d == 1 { '1' } else if d == 2 { '2' } else if d == 3 { '3' }
    else if d == 4 { '4' } else if d == 5 { '5' } else if d == 6 { '6' } else if d == 7 { '7' }
    else if d == 8 { '8' } else { '9' }
}

/// Outcome of uncovering a square.
#[derive(Debug, Clone, Copy, PartialEq, Eq, Structural)]
pub enum RevealOutcome {
    /// The square was already uncovered or is flagged: nothing changed.
    NoOp,
    /// The square held a mine; it alone has been uncovered.
    Exploded,
    /// The square was safe; this many squares were uncovered.
    Revealed(usize),
}

/// The grid of squares plus its counters.
pub struct GameBoard {
    /// Row-major squares; index `row * num_columns + column`.
    pub grid: Vec<Square>,
    pub num_rows: usize,
    pub num_columns: usize,
    pub num_mines: usize,
    /// Safe squares not yet uncovered; 0 means the game is won.
    pub num_uncovered_squares: usize,
}

impl GameBoard {
    /// The grid has one square per position and fits the largest board.
    pub open spec fn wf(&self) -> bool {
        &&& self.num_rows <= MAX_ROWS
        &&& self.num_columns <= MAX_COLUMNS
        &&& self.grid@.len() == self.num_rows as int * self.num_columns as int
    }

    /// The counters agree with the squares.
    pub open spec fn consistent(&self) -> bool {
        &&& self.num_mines == mine_count(self.grid@)
        &&& self.num_uncovered_squares == covered_safe_count(self.grid@)
    }

    pub open spec fn in_bounds(&self, r: usize, c: usize) -> bool {
        r < self.num_rows && c < self.num_columns
    }

    pub open spec fn square(&self, r: usize, c: usize) -> Square {
        self.grid@[idx(self.num_columns, r, c)]
    }

    /// The same board with the square at `(r, c)` replaced.
    pub open spec fn with_square(&self, r: usize, c: usize, s: Square) -> Seq<Square> {
        self.grid@.update(idx(self.num_columns, r, c), s)
    }

    /// An empty board of no rows and no columns.
    pub fn new() -> (r: GameBoard)
        ensures
            r.wf(),
            r.consistent(),
            r.num_rows == 0 && r.num_columns == 0 && r.num_mines == 0,
            r.num_uncovered_squares == 0,
    {
        GameBoard {
            grid: Vec::new(),
            num_rows: 0,
            num_columns: 0,
            num_mines: 0,
            num_uncovered_squares: 0,
        }
    }

    /// Cover every square and remove every mine, flag, mark and count.
    pub fn clear(&mut self)
        requires
            old(self).wf(),
        ensures
            final(self).wf(),
            final(self).num_rows == old(self).num_rows,
            final(self).num_columns == old(self).num_columns,
            final(self).num_mines == old(self).num_mines,
            final(self).num_uncovered_squares == old(self).num_uncovered_squares,
            final(self).grid@.len() == old(self).grid@.len(),
            forall|i: int|
                0 <= i < final(self).grid@.len() ==> #[trigger] final(self).grid@[i]
                    == Square::blank_spec(),
    {
        let mut i: usize = 0;
        while i < self.grid.len()
            invariant
                self.wf(),
                self.num_rows == old(self).num_rows,
                self.num_columns == old(self).num_columns,
                self.num_mines == old(self).num_mines,
                self.num_uncovered_squares == old(self).num_uncovered_squares,
                self.grid@.len() == old(self).grid@.len(),
                i <= self.grid@.len(),
                forall|j: int| 0 <= j < i ==> #[trigger] self.grid@[j] == Square::blank_spec(),
            decreases self.grid@.len() - i,
        {
            self.grid.set(i, Square::blank());
            i = i + 1;
        }
    }

    fn index_of(&self, row: usize, column: usize) -> (r: usize)
        requires
            self.wf(),
            self.in_bounds(row, column),
        ensures
            r == idx(self.num_columns, row, column),
            r < self.grid@.len(),
    {
        proof {
            lemma_idx_bounds(self.num_rows, self.num_columns, row, column);
            assert(row as int * self.num_columns as int <= 24 * 30) by (nonlinear_arith)
                requires
                    row < 24,
                    self.num_columns <= 30,
            ;
        }
        row * self.num_columns + column
    }

    pub fn get_square(&self, row: usize, column: usize) -> (r: Square)
        requires
            self.wf(),
            self.in_bounds(row, column),
        ensures
            r == self.square(row, column),
    {
        let i = self.index_of(row, column);
        self.grid[i]
    }

    fn put_square(&mut self, row: usize, column: usize, s: Square)
        requires
            old(self).wf(),
            old(self).in_bounds(row, column),
        ensures
            final(self).wf(),
            final(self).grid@ == old(self).with_square(row, column, s),
            final(self).num_rows == old(self).num_rows,
            final(self).num_columns == old(self).num_columns,
            final(self).num_mines == old(self).num_mines,
            final(self).num_uncovered_squares == old(self).num_uncovered_squares,
    {
        let i = self.index_of(row, column);
        self.grid.set(i, s);
    }

    pub fn is_visited(&self, row: usize, column: usize) -> (r: bool)
        requires
            self.wf(),
            self.in_bounds(row, column),
        ensures
            r == self.square(row, column).visited,
    {
        self.get_square(row, column).visited
    }

    pub fn is_mine(&self, row: usize, column: usize) -> (r: bool)
        requires
            self.wf(),
            self.in_bounds(row, column),
        ensures
            r == self.square(row, column).mine,
    {
        self.get_square(row, column).mine
    }

    pub fn is_flagged(&self, row: usize, column: usize) -> (r: bool)
        requires
            self.wf(),
            self.in_bounds(row, column),
        ensures
            r == self.square(row, column).flagged,
    {
        self.get_square(row, column).flagged
    }

    pub fn is_q_marked(&self, row: usize, column: usize) -> (r: bool)
        requires
            self.wf(),
            self.in_bounds(row, column),
        ensures
            r == self.square(row, column).q_marked,
    {
        self.get_square(row, column).q_marked
    }

    pub fn get_adjacent(&self, row: usize, column: usize) -> (r: u8)
        requires
            self.wf(),
            self.in_bounds(row, column),
        ensures
            r == self.square(row, column).adjacent,
    {
        self.get_square(row, column).adjacent
    }

    /// Whether the square carries every facet of `mask`.
    pub fn mask_matches_exact(&self, row: usize, column: usize, mask: u8) -> (r: bool)
        requires
            self.wf(),
            self.in_bounds(row, column),
        ensures
            r == ((flags_of(self.square(row, column)) & mask) == mask),
    {
        (self.get_square(row, column).flags() & mask) == mask
    }

    /// Whether the square carries some facet of `mask`.
    pub fn mask_matches_any(&self, row: usize, column: usize, mask: u8) -> (r: bool)
        requires
            self.wf(),
            self.in_bounds(row, column),
        ensures
            r == ((flags_of(self.square(row, column)) & mask) > 0),
    {
        (self.get_square(row, column).flags() & mask) > 0
    }

    /// Fields other than the grid are unchanged.
    pub open spec fn same_counters(&self, other: &GameBoard) -> bool {
        &&& self.num_rows == other.num_rows
        &&& self.num_columns == other.num_columns
        &&& self.num_mines == other.num_mines
        &&& self.num_uncovered_squares == other.num_uncovered_squares
    }

    pub fn set_visited(&mut self, row: usize, column: usize)
        requires
            old(self).wf(),
            old(self).in_bounds(row, column),
        ensures
            final(self).wf(),
            final(self).same_counters(old(self)),
            final(self).grid@ == old(self).with_square(
                row,
                column,
                Square { visited: true, ..old(self).square(row, column) },
            ),
    {
        let s = self.get_square(row, column);
        self.put_square(row, column, Square { visited: true, ..s });
    }

    pub fn set_mine(&mut self, row: usize, column: usize)
        requires
            old(self).wf(),
            old(self).in_bounds(row, column),
        ensures
            final(self).wf(),
            final(self).same_counters(old(self)),
            final(self).grid@ == old(self).with_square(
                row,
                column,
                Square { mine: true, ..old(self).square(row, column) },
            ),
    {
        let s = self.get_square(row, column);
        self.put_square(row, column, Square { mine: true, ..s });
    }

    /// Flag a covered square. Does nothing to an uncovered square.
    pub fn set_flagged(&mut self, row: usize, column: usize)
        requires
            old(self).wf(),
            old(self).in_bounds(row, column),
        ensures
            final(self).wf(),
            final(self).same_counters(old(self)),
            old(self).square(row, column).visited ==> final(self).grid@ == old(self).grid@,
            !old(self).square(row, column).visited ==> final(self).grid@ == old(self).with_square(
                row,
                column,
                Square { flagged: true, ..old(self).square(row, column) },
            ),
    {
        let s = self.get_square(row, column);
        if !s.visited {
            self.put_square(row, column, Square { flagged: true, ..s });
        }
    }

    /// Question-mark a covered square. Does nothing to an uncovered square.
    pub fn set_q_marked(&mut self, row: usize, column: usize)
        requires
            old(self).wf(),
            old(self).in_bounds(row, column),
        ensures
            final(self).wf(),
            final(self).same_counters(old(self)),
            old(self).square(row, column).visited ==> final(self).grid@ == old(self).grid@,
            !old(self).square(row, column).visited ==> final(self).grid@ == old(self).with_square(
                row,
                column,
                Square { q_marked: true, ..old(self).square(row, column) },
            ),
    {
        let s = self.get_square(row, column);
        if !s.visited {
            self.put_square(row, column, Square { q_marked: true, ..s });
        }
    }

    /// Store a neighbouring-mine count, which is at most 8.
    pub fn set_adjacent(&mut self, row: usize, column: usize, value: u8)
        requires
            old(self).wf(),
            old(self).in_bounds(row, column),
            value <= 8,
        ensures
            final(self).wf(),
            final(self).same_counters(old(self)),
            final(self).grid@ == old(self).with_square(
                row,
                column,
                Square { adjacent: value, ..old(self).square(row, column) },
            ),
    {
        let s = self.get_square(row, column);
        self.put_square(row, column, Square { adjacent: value, ..s });
    }

    /// Replace a square by one that differs only in its flag or question
    /// mark; the counters stay in agreement with the squares.
    fn put_marks(&mut self, row: usize, column: usize, s: Square)
        requires
            old(self).wf(),
            old(self).consistent(),
            old(self).in_bounds(row, column),
            s.visited == old(self).square(row, column).visited,
            s.mine == old(self).square(row, column).mine,
        ensures
            final(self).wf(),
            final(self).consistent(),
            final(self).same_counters(old(self)),
            final(self).grid@ == old(self).with_square(row, column, s),
    {
        proof {
            lemma_idx_bounds(self.num_rows, self.num_columns, row, column);
            let i = idx(self.num_columns, row, column);
            lemma_count_update(self.grid@, is_mine_pred(), i, s);
            lemma_count_update(self.grid@, covered_safe_pred(), i, s);
        }
        self.put_square(row, column, s);
    }

    /// Flag a covered square, or take its flag away. Does nothing to an
    /// uncovered square.
    pub fn toggle_flag(&mut self, row: usize, column: usize)
        requires
            old(self).wf(),
            old(self).consistent(),
            old(self).in_bounds(row, column),
        ensures
            final(self).wf(),
            final(self).consistent(),
            final(self).same_counters(old(self)),
            old(self).square(row, column).visited ==> final(self).grid@ == old(self).grid@,
            !old(self).square(row, column).visited ==> final(self).grid@ == old(self).with_square(
                row,
                column,
                Square { flagged: !old(self).square(row, column).flagged, ..old(self).square(row, column) },
            ),
    {
        let s = self.get_square(row, column);
        if !s.visited {
            self.put_marks(row, column, Square { flagged: !s.flagged, ..s });
        }
    }

    /// Question-mark a covered square, or take its mark away. Does nothing
    /// to an uncovered square.
    pub fn toggle_q_mark(&mut self, row: usize, column: usize)
        requires
            old(self).wf(),
            old(self).consistent(),
            old(self).in_bounds(row, column),
        ensures
            final(self).wf(),
            final(self).consistent(),
            final(self).same_counters(old(self)),
            old(self).square(row, column).visited ==> final(self).grid@ == old(self).grid@,
            !old(self).square(row, column).visited ==> final(self).grid@ == old(self).with_square(
                row,
                column,
                Square { q_marked: !old(self).square(row, column).q_marked, ..old(self).square(row, column) },
            ),
    {
        let s = self.get_square(row, column);
        if !s.visited {
            self.put_marks(row, column, Square { q_marked: !s.q_marked, ..s });
        }
    }

    /// The symbol code to draw: 10 for a mine, 15 for a square with no
    /// neighbouring mine, else the count of neighbouring mines.
    pub fn get_display(&self, row: usize, column: usize) -> (r: usize)
        requires
            self.wf(),
            self.in_bounds(row, column),
        ensures
            r == display_code(self.square(row, column)),
    {
        let s = self.get_square(row, column);
        if s.mine {
            DISPLAY_MINE
        } else if s.adjacent == 0 {
            DISPLAY_BLANK
        } else {
            s.adjacent as usize
        }
    }

    /// The Moore neighbours of a square, in the order `neighbors` gives.
    pub fn adjacent_square_indices(&self, row: usize, column: usize) -> (r: Vec<(usize, usize)>)
        requires
            self.wf(),
            self.in_bounds(row, column),
        ensures
            r@ == neighbors(self.num_rows, self.num_columns, row, column),
    {
        let mut v: Vec<(usize, usize)> = Vec::with_capacity(8);
        let up = row > 0;
        let down = row + 1 < self.num_rows;
        let left = column > 0;
        let right = column + 1 < self.num_columns;
        if up {
            v.push((row - 1, column));
            if left {
                v.push((row - 1, column - 1));
            }
            if right {
                v.push((row - 1, column + 1));
            }
        }
        if left {
            v.push((row, column - 1));
        }
        if right {
            v.push((row, column + 1));
        }
        if down {
            v.push((row + 1, column));
            if left {
                v.push((row + 1, column - 1));
            }
            if right {
                v.push((row + 1, column + 1));
            }
        }
        assert(v@ =~= neighbors(self.num_rows, self.num_columns, row, column));
        v
    }

    /// The orthogonal neighbours of a square: above, left, right, below.
    pub fn adjacent_square_indices_no_diag(&self, row: usize, column: usize) -> (r: Vec<(usize, usize)>)
        requires
            self.wf(),
            self.in_bounds(row, column),
        ensures
            r@ == neighbors_no_diag(self.num_rows, self.num_columns, row, column),
    {
        let mut v: Vec<(usize, usize)> = Vec::with_capacity(4);
        if row > 0 {
            v.push((row - 1, column));
        }
        if column > 0 {
            v.push((row, column - 1));
        }
        if column + 1 < self.num_columns {
            v.push((row, column + 1));
        }
        if row + 1 < self.num_rows {
            v.push((row + 1, column));
        }
        assert(v@ =~= neighbors_no_diag(self.num_rows, self.num_columns, row, column));
        v
    }

    /// Number of mines around a safe square, 0 on a mine.
    fn count_adjacent_mines(&self, row: usize, column: usize) -> (r: u8)
        requires
            self.wf(),
            self.in_bounds(row, column),
        ensures
            r == adjacent_mines(self.grid@, self.num_rows, self.num_columns, row, column),
            r <= 8,
    {
        if self.is_mine(row, column) {
            return 0;
        }
        let cells = self.adjacent_square_indices(row, column);
        proof {
            lemma_neighbors_are_moore(self.num_rows, self.num_columns, row, column);
        }
        let mut found: u8 = 0;
        let mut k: usize = 0;
        while k < cells.len()
            invariant
                self.wf(),
                self.in_bounds(row, column),
                cells@ == neighbors(self.num_rows, self.num_columns, row, column),
                cells@.len() <= 8,
                forall|j: int|
                    0 <= j < cells@.len() ==> is_moore_neighbor(
                        self.num_rows,
                        self.num_columns,
                        row,
                        column,
                        (#[trigger] cells@[j]).0,
                        cells@[j].1,
                    ),
                k <= cells@.len(),
                found as nat == mines_among(self.grid@, self.num_columns, cells@.take(k as int)),
                found <= k,
            decreases cells@.len() - k,
        {
            let (a, b) = cells[k];
            assert(cells@.take(k + 1).drop_last() =~= cells@.take(k as int));
            if self.is_mine(a, b) {
                found = found + 1;
            }
            k = k + 1;
        }
        assert(cells@.take(k as int) =~= cells@);
        found
    }

    /// Store in every square the number of mines among its Moore neighbours;
    /// a mine keeps 0.
    pub fn calculate_adjacent_mines(&mut self)
        requires
            old(self).wf(),
        ensures
            final(self).wf(),
            final(self).same_counters(old(self)),
            final(self).grid@.len() == old(self).grid@.len(),
            forall|i: int|
                0 <= i < final(self).grid@.len() ==> {
                    let (a, b) = (#[trigger] final(self).grid@[i], old(self).grid@[i]);
                    a.visited == b.visited && a.mine == b.mine && a.flagged == b.flagged
                        && a.q_marked == b.q_marked
                },
            forall|r: usize, c: usize|
                r < final(self).num_rows && c < final(self).num_columns ==> (#[trigger] final(self).square(r, c)).adjacent == adjacent_mines(
                    final(self).grid@,
                    final(self).num_rows,
                    final(self).num_columns,
                    r,
                    c,
                ),
            old(self).consistent() ==> final(self).consistent(),
    {
        let ghost g0 = self.grid@;
        let rows = self.num_rows;
        let cols = self.num_columns;
        let mut r: usize = 0;
        while r < rows
            invariant
                self.wf(),
                self.same_counters(old(self)),
                rows == self.num_rows,
                cols == self.num_columns,
                r <= rows,
                self.grid@.len() == g0.len(),
                forall|i: int|
                    0 <= i < g0.len() ==> {
                        let (a, b) = (#[trigger] self.grid@[i], g0[i]);
                        a.visited == b.visited && a.mine == b.mine && a.flagged == b.flagged
                            && a.q_marked == b.q_marked
                    },
                mine_count(self.grid@) == mine_count(g0),
                covered_safe_count(self.grid@) == covered_safe_count(g0),
                forall|r2: usize, c2: usize|
                    r2 < r && c2 < cols ==> (#[trigger] self.square(r2, c2)).adjacent
                        == adjacent_mines(self.grid@, rows, cols, r2, c2),
            decreases rows - r,
        {
            let mut c: usize = 0;
            while c < cols
                invariant
                    self.wf(),
                    self.same_counters(old(self)),
                    rows == self.num_rows,
                    cols == self.num_columns,
                    r < rows,
                    c <= cols,
                    self.grid@.len() == g0.len(),
                    forall|i: int|
                        0 <= i < g0.len() ==> {
                            let (a, b) = (#[trigger] self.grid@[i], g0[i]);
                            a.visited == b.visited && a.mine == b.mine && a.flagged == b.flagged
                                && a.q_marked == b.q_marked
                        },
                    mine_count(self.grid@) == mine_count(g0),
                    covered_safe_count(self.grid@) == covered_safe_count(g0),
                    forall|r2: usize, c2: usize|
                        (r2 < r && c2 < cols) || (r2 == r && c2 < c) ==> (#[trigger] self.square(
                            r2,
                            c2,
                        )).adjacent == adjacent_mines(self.grid@, rows, cols, r2, c2),
                decreases cols - c,
            {
                let count = self.count_adjacent_mines(r, c);
                let ghost before = self.grid@;
                assert forall|r2: usize, c2: usize|
                    (r2 < r && c2 < cols) || (r2 == r && c2 < c) implies #[trigger] before[idx(
                        cols,
                        r2,
                        c2,
                    )].adjacent == adjacent_mines(before, rows, cols, r2, c2) by {
                    assert(self.square(r2, c2) == before[idx(cols, r2, c2)]);
                }
                self.set_adjacent(r, c, count);
                proof {
                    let i = idx(cols, r, c);
                    lemma_idx_bounds(rows, cols, r, c);
                    let v = self.grid@[i];
                    lemma_count_update(before, is_mine_pred(), i, v);
                    lemma_count_update(before, covered_safe_pred(), i, v);
                    lemma_mines_unchanged(before, self.grid@, rows, cols);
                    assert forall|r2: usize, c2: usize|
                        (r2 < r && c2 < cols) || (r2 == r && c2 < c + 1) implies (
                        #[trigger] self.square(r2, c2)).adjacent == adjacent_mines(
                        self.grid@,
                        rows,
                        cols,
                        r2,
                        c2,
                    ) by {
                        lemma_idx_bounds(rows, cols, r2, c2);
                        if (r2, c2) != (r, c) {
                            lemma_idx_distinct(cols, r, c, r2, c2);
                            assert(self.grid@[idx(cols, r2, c2)] == before[idx(cols, r2, c2)]);
                        }
                        assert(adjacent_mines(before, rows, cols, r2, c2) == adjacent_mines(
                            self.grid@,
                            rows,
                            cols,
                            r2,
                            c2,
                        ));
                    }
                }
                c = c + 1;
            }
            r = r + 1;
        }
    }

    /// Index of the first square that holds no mine.
    fn first_free_square(&self) -> (r: usize)
        requires
            self.wf(),
            mine_count(self.grid@) < self.grid@.len(),
        ensures
            r < self.grid@.len(),
            !self.grid@[r as int].mine,
    {
        proof {
            lemma_count_full(self.grid@, is_mine_pred());
        }
        let mut i: usize = 0;
        while i < self.grid.len()
            invariant
                i <= self.grid@.len(),
                forall|j: int| 0 <= j < i ==> (#[trigger] self.grid@[j]).mine,
                exists|j: int| 0 <= j < self.grid@.len() && !(#[trigger] self.grid@[j]).mine,
            decreases self.grid@.len() - i,
        {
            if !self.grid[i].mine {
                return i;
            }
            i = i + 1;
        }
        i
    }

    /// Draw positions until one holds no mine, giving up after a fixed
    /// number of draws.
    fn draw_free_square<R: RandomNumberGenerator>(&self, rng: &mut R) -> (r: Option<usize>)
        requires
            self.wf(),
            self.num_rows > 0,
            self.num_columns > 0,
            self.num_rows <= MAX_HEIGHT,
            self.num_columns <= MAX_WIDTH,
        ensures
            r matches Some(i) ==> i < self.grid@.len() && !self.grid@[i as int].mine,
    {
        let mut draws: usize = 0;
        while draws < MAX_DRAWS_PER_MINE
            invariant
                self.wf(),
                self.num_rows > 0,
                self.num_columns > 0,
                self.num_rows <= MAX_HEIGHT,
                self.num_columns <= MAX_WIDTH,
            decreases MAX_DRAWS_PER_MINE - draws,
        {
            let row = rng.random_u32(self.num_rows as u32);
            let column = rng.random_u32(self.num_columns as u32);
            if !self.is_mine(row, column) {
                return Some(self.index_of(row, column));
            }
            draws = draws + 1;
        }
        None
    }

    /// Start a new game: size the grid after the configured difficulty,
    /// cover and clear every square, and place the mines by rejection
    /// sampling (a row below the height and a column below the width are
    /// drawn until the position holds no mine). Returns `RESIZE | DISPLAY`
    /// when the dimensions changed, else `DISPLAY`.
    ///
    /// Draws for one mine are capped at `MAX_DRAWS_PER_MINE`, which keeps
    /// the loop finite: if that many draws all land on mines, the mine goes
    /// on the first free square in row-major order instead. With at most
    /// 64 mines on 81 squares the chance of reaching the cap is below
    /// 10^-10000, so in practice every mine is a rejection-sampled draw.
    pub fn setup<R: RandomNumberGenerator>(
        &mut self,
        config: &Config,
        random_number_generator: &mut R,
    ) -> (r: i32)
        requires
            config.difficulty.wf(),
        ensures
            final(self).wf(),
            final(self).consistent(),
            final(self).num_columns == config.difficulty.width_spec(),
            final(self).num_rows == config.difficulty.height_spec(),
            final(self).num_mines == config.difficulty.mines_spec(),
            mine_count(final(self).grid@) == final(self).num_mines,
            valid_dimensions(
                final(self).num_columns as int,
                final(self).num_rows as int,
                final(self).num_mines as int,
            ),
            final(self).num_uncovered_squares == final(self).num_rows * final(self).num_columns
                - final(self).num_mines,
            forall|i: int|
                0 <= i < final(self).grid@.len() ==> {
                    let q = #[trigger] final(self).grid@[i];
                    !q.visited && !q.flagged && !q.q_marked && q.adjacent == 0
                },
            r == if old(self).num_columns != config.difficulty.width_spec()
                || old(self).num_rows != config.difficulty.height_spec() {
                RESIZE | DISPLAY
            } else {
                DISPLAY
            },
    {
        let (config_width, config_height) = config.difficulty.dimensions();
        let adjust = if config_width as usize != self.num_columns || config_height as usize
            != self.num_rows {
            RESIZE | DISPLAY
        } else {
            DISPLAY
        };
        let mines = config.difficulty.num_mines() as usize;
        let rows = config_height as usize;
        let columns = config_width as usize;
        assert(rows * columns <= 720 && mines < rows * columns) by (nonlinear_arith)
            requires
                9 <= rows <= 24,
                9 <= columns <= 30,
                mines <= (rows - 1) * (columns - 1),
        ;
        let total = rows * columns;
        let mut grid: Vec<Square> = Vec::with_capacity(total);
        let mut i: usize = 0;
        while i < total
            invariant
                i <= total,
                grid@.len() == i,
                forall|j: int| 0 <= j < i ==> #[trigger] grid@[j] == Square::blank_spec(),
            decreases total - i,
        {
            grid.push(Square::blank());
            i = i + 1;
        }
        self.grid = grid;
        self.num_rows = rows;
        self.num_columns = columns;
        self.num_mines = mines;
        self.num_uncovered_squares = total - mines;
        proof {
            lemma_count_zero(self.grid@, is_mine_pred());
            lemma_unvisited_split(self.grid@);
        }
        let mut placed: usize = 0;
        while placed < mines
            invariant
                self.wf(),
                self.num_rows == rows,
                self.num_columns == columns,
                self.num_mines == mines,
                self.num_uncovered_squares == total - mines,
                9 <= rows <= 24,
                9 <= columns <= 30,
                total == rows * columns,
                mines < total,
                placed <= mines,
                mine_count(self.grid@) == placed,
                covered_safe_count(self.grid@) == total - placed,
                forall|j: int|
                    0 <= j < self.grid@.len() ==> {
                        let q = #[trigger] self.grid@[j];
                        !q.visited && !q.flagged && !q.q_marked && q.adjacent == 0
                    },
            decreases mines - placed,
        {
            let k = match self.draw_free_square(random_number_generator) {
                Some(k) => k,
                None => self.first_free_square(),
            };
            let ghost before = self.grid@;
            let q = self.grid[k];
            self.grid.set(k, Square { mine: true, ..q });
            proof {
                lemma_count_update(before, is_mine_pred(), k as int, self.grid@[k as int]);
                lemma_count_update(before, covered_safe_pred(), k as int, self.grid@[k as int]);
            }
            placed = placed + 1;
        }
        adjust
    }

    /// Flood fill from the uncovered square `(row, column)`: uncover each
    /// neighbour that is covered, safe and unflagged, adding one to
    /// `num_uncovered` for each, and go on from every such neighbour that
    /// has no neighbouring mine. Each square is uncovered at most once.
    #[verifier::spinoff_prover]
    #[verifier::rlimit(100)]
    pub fn uncover_adjacent_empty_squares(
        &mut self,
        row: usize,
        column: usize,
        num_uncovered: &mut usize,
    )
        requires
            old(self).wf(),
            old(self).in_bounds(row, column),
            old(self).square(row, column).visited,
            *old(num_uncovered) + covered_safe_count(old(self).grid@) <= old(self).grid@.len(),
        ensures
            final(self).wf(),
            final(self).same_counters(old(self)),
            only_uncovers(old(self).grid@, final(self).grid@),
            *final(num_uncovered) >= *old(num_uncovered),
            *final(num_uncovered) + covered_safe_count(final(self).grid@) == *old(num_uncovered)
                + covered_safe_count(old(self).grid@),
            closed_at(final(self).grid@, final(self).num_rows, final(self).num_columns, row, column),
            region_closed(old(self).grid@, final(self).grid@, final(self).num_rows, final(self).num_columns),
            all_reached(
                old(self).grid@,
                final(self).grid@,
                final(self).num_rows,
                final(self).num_columns,
                row,
                column,
            ),
        decreases covered_safe_count(old(self).grid@),
    {
        let ghost g0 = self.grid@;
        let ghost n0 = *num_uncovered;
        let rows = self.num_rows;
        let cols = self.num_columns;
        let cells = self.adjacent_square_indices(row, column);
        proof {
            lemma_neighbors_are_moore(rows, cols, row, column);
            lemma_count_bounded(g0, covered_safe_pred());
            assert(rows as int * cols as int <= 720) by (nonlinear_arith)
                requires
                    rows <= 24,
                    cols <= 30,
            ;
            assert forall|r: usize, c: usize| r < rows && c < cols implies #[trigger] closed_if_new_blank(
                g0,
                g0,
                rows,
                cols,
                r,
                c,
            ) by {}
        }
        let mut k: usize = 0;
        while k < cells.len()
            invariant
                self.wf(),
                self.same_counters(old(self)),
                rows == self.num_rows,
                cols == self.num_columns,
                row < rows,
                column < cols,
                g0 == old(self).grid@,
                cells@ == neighbors(rows, cols, row, column),
                forall|j: int|
                    0 <= j < cells@.len() ==> is_moore_neighbor(
                        rows,
                        cols,
                        row,
                        column,
                        (#[trigger] cells@[j]).0,
                        cells@[j].1,
                    ),
                k <= cells@.len(),
                only_uncovers(g0, self.grid@),
                *num_uncovered + covered_safe_count(self.grid@) == n0 + covered_safe_count(g0),
                *num_uncovered >= n0,
                n0 + covered_safe_count(g0) <= g0.len(),
                g0.len() <= 720,
                forall|j: int| 0 <= j < k ==> blocked(self.grid@, cols, #[trigger] cells@[j]),
                region_closed(g0, self.grid@, rows, cols),
                all_reached(g0, self.grid@, rows, cols, row, column),
            decreases cells@.len() - k,
        {
            let (a, b) = cells[k];
            proof {
                assert(is_moore_neighbor(rows, cols, row, column, cells@[k as int].0, cells@[k as int].1));
            }
            let q = self.get_square(a, b);
            if !(q.visited || q.mine || q.flagged) {
                let ghost before = self.grid@;
                self.set_visited(a, b);
                let ghost mid = self.grid@;
                proof {
                    lemma_idx_bounds(rows, cols, a, b);
                    lemma_count_update(before, covered_safe_pred(), idx(cols, a, b), mid[idx(cols, a, b)]);
                }
                *num_uncovered = *num_uncovered + 1;
                proof {
                    assert forall|j: int| 0 <= j < before.len() implies uncovers(
                        before[j],
                        #[trigger] mid[j],
                    ) by {}
                    lemma_only_uncovers_trans(g0, before, mid);
                    lemma_reached_after_step(g0, before, mid, rows, cols, row, column, a, b);
                    assert forall|j: int| 0 <= j < k + 1 implies blocked(
                        mid,
                        cols,
                        #[trigger] cells@[j],
                    ) by {
                        if j < k {
                            lemma_idx_bounds(rows, cols, cells@[j].0, cells@[j].1);
                            assert(blocked(before, cols, cells@[j]));
                        }
                    }
                    if q.adjacent != 0 {
                        assert forall|r: usize, c: usize| r < rows && c < cols implies #[trigger] closed_if_new_blank(
                            g0,
                            mid,
                            rows,
                            cols,
                            r,
                            c,
                        ) by {
                            lemma_idx_bounds(rows, cols, r, c);
                            assert(closed_if_new_blank(g0, before, rows, cols, r, c));
                            if (r, c) != (a, b) {
                                lemma_idx_distinct(cols, a, b, r, c);
                                if !g0[idx(cols, r, c)].visited && before[idx(cols, r, c)].visited
                                    && before[idx(cols, r, c)].adjacent == 0 {
                                    assert forall|j: int| 0 <= j < before.len() implies uncovers(
                                        before[j],
                                        #[trigger] mid[j],
                                    ) by {}
                                    lemma_closed_mono(before, mid, rows, cols, r, c);
                                }
                            }
                        }
                    }
                }
                if q.adjacent == 0 {
                    self.uncover_adjacent_empty_squares(a, b, num_uncovered);
                    proof {
                        let after = self.grid@;
                        lemma_only_uncovers_trans(g0, mid, after);
                        lemma_only_uncovers_trans(before, mid, after);
                        assert forall|j: int| 0 <= j < k + 1 implies blocked(
                            after,
                            cols,
                            #[trigger] cells@[j],
                        ) by {
                            lemma_idx_bounds(rows, cols, cells@[j].0, cells@[j].1);
                            let i = idx(cols, cells@[j].0, cells@[j].1);
                            assert(blocked(mid, cols, cells@[j]));
                            assert(uncovers(mid[i], after[i]));
                        }
                        assert forall|r: usize, c: usize| r < rows && c < cols implies #[trigger] closed_if_new_blank(
                            before,
                            after,
                            rows,
                            cols,
                            r,
                            c,
                        ) by {
                            lemma_idx_bounds(rows, cols, r, c);
                            assert(closed_if_new_blank(mid, after, rows, cols, r, c));
                            if (r, c) != (a, b) {
                                lemma_idx_distinct(cols, a, b, r, c);
                            }
                        }
                        lemma_region_closed_trans(g0, before, after, rows, cols);
                        assert(uncovers(g0[idx(cols, a, b)], before[idx(cols, a, b)]));
                        lemma_reached_after_subfill(g0, mid, after, rows, cols, row, column, a, b);
                    }
                }
            }
            k = k + 1;
        }
    }

    /// Uncover a square. A flagged or already uncovered square is left
    /// alone (`NoOp`). A mine is uncovered alone (`Exploded`). A safe square
    /// is uncovered, and when no mine touches it the flood fill goes on from
    /// it; the number of squares uncovered is returned and subtracted from
    /// the squares left to uncover.
    #[verifier::spinoff_prover]
    #[verifier::rlimit(60)]
    pub fn left_click(&mut self, row: usize, column: usize) -> (r: RevealOutcome)
        requires
            old(self).wf(),
            old(self).consistent(),
            old(self).in_bounds(row, column),
        ensures
            final(self).wf(),
            final(self).consistent(),
            final(self).num_rows == old(self).num_rows,
            final(self).num_columns == old(self).num_columns,
            final(self).num_mines == old(self).num_mines,
            ({
                let s = old(self).square(row, column);
                if s.visited || s.flagged {
                    &&& r == RevealOutcome::NoOp
                    &&& final(self).grid@ == old(self).grid@
                    &&& final(self).num_uncovered_squares == old(self).num_uncovered_squares
                } else if s.mine {
                    &&& r == RevealOutcome::Exploded
                    &&& final(self).grid@ == old(self).with_square(
                        row,
                        column,
                        Square { visited: true, ..s },
                    )
                    &&& final(self).num_uncovered_squares == old(self).num_uncovered_squares
                } else {
                    &&& r == RevealOutcome::Revealed(
                        (old(self).num_uncovered_squares - final(self).num_uncovered_squares) as usize,
                    )
                    &&& final(self).num_uncovered_squares < old(self).num_uncovered_squares
                    &&& only_uncovers(old(self).grid@, final(self).grid@)
                    &&& final(self).square(row, column).visited
                    &&& s.adjacent != 0 ==> final(self).grid@ == old(self).with_square(
                        row,
                        column,
                        Square { visited: true, ..s },
                    )
                    &&& s.adjacent == 0 ==> closed_at(
                        final(self).grid@,
                        final(self).num_rows,
                        final(self).num_columns,
                        row,
                        column,
                    )
                    &&& region_closed(
                        old(self).grid@,
                        final(self).grid@,
                        final(self).num_rows,
                        final(self).num_columns,
                    )
                    &&& all_reached(
                        old(self).grid@,
                        final(self).grid@,
                        final(self).num_rows,
                        final(self).num_columns,
                        row,
                        column,
                    )
                }
            }),
    {
        let ghost g0 = self.grid@;
        let rows = self.num_rows;
        let cols = self.num_columns;
        proof {
            lemma_idx_bounds(rows, cols, row, column);
            lemma_count_bounded(g0, covered_safe_pred());
        }
        let s = self.get_square(row, column);
        if s.visited || s.flagged {
            return RevealOutcome::NoOp;
        }
        let ghost i = idx(cols, row, column);
        self.set_visited(row, column);
        let ghost g1 = self.grid@;
        proof {
            lemma_count_update(g0, is_mine_pred(), i, g1[i]);
            lemma_count_update(g0, covered_safe_pred(), i, g1[i]);
        }
        if s.mine {
            return RevealOutcome::Exploded;
        }
        proof {
            assert forall|j: int| 0 <= j < g0.len() implies uncovers(g0[j], #[trigger] g1[j]) by {}
        }
        let mut squares_uncovered_this_turn: usize = 1;
        if s.adjacent == 0 {
            self.uncover_adjacent_empty_squares(row, column, &mut squares_uncovered_this_turn);
            proof {
                let g2 = self.grid@;
                lemma_only_uncovers_trans(g0, g1, g2);
                lemma_only_uncovers_mines(g1, g2);
                assert forall|r: usize, c: usize| r < rows && c < cols implies #[trigger] closed_if_new_blank(
                    g0,
                    g2,
                    rows,
                    cols,
                    r,
                    c,
                ) by {
                    lemma_idx_bounds(rows, cols, r, c);
                    assert(closed_if_new_blank(g1, g2, rows, cols, r, c));
                    if (r, c) != (row, column) {
                        lemma_idx_distinct(cols, row, column, r, c);
                    }
                }
                assert forall|x: usize, y: usize|
                    x < rows && y < cols && !g0[idx(cols, x, y)].visited
                        && #[trigger] g2[idx(cols, x, y)].visited implies exists|n: nat|
                    flood_reach(g0, rows, cols, row, column, x, y, n) by {
                    lemma_idx_bounds(rows, cols, x, y);
                    if (x, y) == (row, column) {
                        assert(flood_reach(g0, rows, cols, row, column, x, y, 0));
                    } else {
                        lemma_idx_distinct(cols, row, column, x, y);
                        assert(!g1[idx(cols, x, y)].visited);
                        let n = choose|n: nat| flood_reach(g1, rows, cols, row, column, x, y, n);
                        lemma_reach_mono(g0, g1, rows, cols, row, column, x, y, n);
                    }
                }
            }
        } else {
            proof {
                assert forall|r: usize, c: usize| r < rows && c < cols implies #[trigger] closed_if_new_blank(
                    g0,
                    g1,
                    rows,
                    cols,
                    r,
                    c,
                ) by {
                    lemma_idx_bounds(rows, cols, r, c);
                    if (r, c) != (row, column) {
                        lemma_idx_distinct(cols, row, column, r, c);
                    }
                }
                assert forall|x: usize, y: usize|
                    x < rows && y < cols && !g0[idx(cols, x, y)].visited
                        && #[trigger] g1[idx(cols, x, y)].visited implies exists|n: nat|
                    flood_reach(g0, rows, cols, row, column, x, y, n) by {
                    lemma_idx_bounds(rows, cols, x, y);
                    if (x, y) == (row, column) {
                        assert(flood_reach(g0, rows, cols, row, column, x, y, 0));
                    } else {
                        lemma_idx_distinct(cols, row, column, x, y);
                    }
                }
            }
        }
        self.num_uncovered_squares = self.num_uncovered_squares - squares_uncovered_this_turn;
        RevealOutcome::Revealed(squares_uncovered_this_turn)
    }

    /// The text symbol of a square, for a plain-text view of the board.
    pub fn symbol_at(&self, row: usize, column: usize) -> (r: char)
        requires
            self.wf(),
            self.in_bounds(row, column),
            self.square(row, column).adjacent <= 9,
        ensures
            r == symbol_of(self.square(row, column)),
    {
        let s = self.get_square(row, column);
        if s.mine {
            'M'
        } else if s.adjacent == 0 && s.visited {
            'X'
        } else {
            match s.adjacent {
                0 => '0',
                1 => '1',
                2 => '2',
                3 => '3',
                4 => '4',
                5 => '5',
                6 => '6',
                7 => '7',
                8 => '8',
                _ => '9',
            }
        }
    }

    /// Safe squares still covered; the game is won when this reaches 0.
    pub fn remaining_uncovered_count(&self) -> (r: usize)
        ensures
            r == self.num_uncovered_squares,
    {
        self.num_uncovered_squares
    }

    /// Click every safe square in row-major order. On a board with no flag
    /// this uncovers every safe square and no mine, which wins the game:
    /// no squares are left to uncover.
    pub fn uncover_all_safe_squares(&mut self)
        requires
            old(self).wf(),
            old(self).consistent(),
            forall|i: int| 0 <= i < old(self).grid@.len() ==> !(#[trigger] old(self).grid@[i]).flagged,
        ensures
            final(self).wf(),
            final(self).consistent(),
            final(self).num_rows == old(self).num_rows,
            final(self).num_columns == old(self).num_columns,
            final(self).num_mines == old(self).num_mines,
            only_uncovers(old(self).grid@, final(self).grid@),
            forall|i: int|
                0 <= i < final(self).grid@.len() ==> !(#[trigger] final(self).grid@[i]).mine
                    ==> final(self).grid@[i].visited,
            final(self).num_uncovered_squares == 0,
    {
        let ghost g0 = self.grid@;
        let rows = self.num_rows;
        let cols = self.num_columns;
        proof {
            assert forall|j: int| 0 <= j < g0.len() implies uncovers(g0[j], #[trigger] g0[j]) by {}
        }
        let mut r: usize = 0;
        while r < rows
            invariant
                self.wf(),
                self.consistent(),
                rows == self.num_rows,
                cols == self.num_columns,
                self.num_mines == old(self).num_mines,
                g0 == old(self).grid@,
                r <= rows,
                only_uncovers(g0, self.grid@),
                forall|i: int| 0 <= i < g0.len() ==> !(#[trigger] g0[i]).flagged,
                forall|r2: usize, c2: usize|
                    r2 < r && c2 < cols && !(#[trigger] self.square(r2, c2)).mine ==> self.square(
                        r2,
                        c2,
                    ).visited,
            decreases rows - r,
        {
            let mut c: usize = 0;
            while c < cols
                invariant
                    self.wf(),
                    self.consistent(),
                    rows == self.num_rows,
                    cols == self.num_columns,
                    self.num_mines == old(self).num_mines,
                    g0 == old(self).grid@,
                    r < rows,
                    c <= cols,
                    only_uncovers(g0, self.grid@),
                    forall|i: int| 0 <= i < g0.len() ==> !(#[trigger] g0[i]).flagged,
                    forall|r2: usize, c2: usize|
                        ((r2 < r && c2 < cols) || (r2 == r && c2 < c)) && !(#[trigger] self.square(
                            r2,
                            c2,
                        )).mine ==> self.square(r2, c2).visited,
                decreases cols - c,
            {
                let ghost before = self.grid@;
                proof {
                    lemma_idx_bounds(rows, cols, r, c);
                    assert forall|r2: usize, c2: usize|
                        ((r2 < r && c2 < cols) || (r2 == r && c2 < c)) && !(#[trigger] before[idx(
                            cols,
                            r2,
                            c2,
                        )]).mine implies before[idx(cols, r2, c2)].visited by {
                        assert(self.square(r2, c2) == before[idx(cols, r2, c2)]);
                    }
                    let i = idx(cols, r, c);
                    assert(uncovers(g0[i], before[i]));
                }
                if !self.is_mine(r, c) {
                    self.left_click(r, c);
                }
                proof {
                    let after = self.grid@;
                    if before != after {
                        lemma_only_uncovers_trans(g0, before, after);
                    }
                    assert forall|r2: usize, c2: usize|
                        ((r2 < r && c2 < cols) || (r2 == r && c2 < c + 1)) && !(
                        #[trigger] self.square(r2, c2)).mine implies self.square(r2, c2).visited by {
                        lemma_idx_bounds(rows, cols, r2, c2);
                        let j = idx(cols, r2, c2);
                        assert(uncovers(g0[j], before[j]));
                        if before != after {
                            assert(uncovers(before[j], after[j]));
                        }
                    }
                }
                c = c + 1;
            }
            r = r + 1;
        }
        proof {
            let g = self.grid@;
            assert forall|i: int| 0 <= i < g.len() && !(#[trigger] g[i]).mine implies g[i].visited by {
                let (r2, c2) = lemma_idx_of(rows, cols, i);
                assert(self.square(r2, c2) == g[i]);
            }
            lemma_won_iff_all_safe_uncovered(self);
        }
    }
}

/// On a board whose counters agree with its squares, no squares are left to
/// uncover exactly when every square without a mine has been uncovered.
pub proof fn lemma_won_iff_all_safe_uncovered(b: &GameBoard)
    requires
        b.wf(),
        b.consistent(),
    ensures
        b.num_uncovered_squares == 0 <==> forall|i: int|
            0 <= i < b.grid@.len() ==> !(#[trigger] b.grid@[i]).mine ==> b.grid@[i].visited,
{
    lemma_count_zero(b.grid@, covered_safe_pred());
}

/// Coverage of a flood fill: when the start is uncovered with all its
/// neighbours stopping the fill, and every blank square uncovered on the way
/// is closed the same way, then every square that flood-fill steps reach
/// from the start on the earlier board is uncovered.
pub proof fn lemma_flood_covers_reach(
    g0: Seq<Square>,
    g2: Seq<Square>,
    rows: usize,
    cols: usize,
    sr: usize,
    sc: usize,
    a: usize,
    b: usize,
    n: nat,
)
    requires
        g0.len() == rows as int * cols as int,
        sr < rows,
        sc < cols,
        only_uncovers(g0, g2),
        g2[idx(cols, sr, sc)].visited,
        closed_at(g2, rows, cols, sr, sc),
        region_closed(g0, g2, rows, cols),
        flood_reach(g0, rows, cols, sr, sc, a, b, n),
    ensures
        a < rows,
        b < cols,
        g2[idx(cols, a, b)].visited,
        (a, b) == (sr, sc) || !blocked(g0, cols, (a, b)),
    decreases n,
{
    if n > 0 {
        let (x, y) = choose|x: usize, y: usize|
            flood_reach(g0, rows, cols, sr, sc, x, y, (n - 1) as nat) && flood_step(
                g0,
                rows,
                cols,
                sr,
                sc,
                x,
                y,
                a,
                b,
            );
        lemma_flood_covers_reach(g0, g2, rows, cols, sr, sc, x, y, (n - 1) as nat);
        assert(is_moore_neighbor(rows, cols, x, y, a, b));
        lemma_idx_bounds(rows, cols, x, y);
        lemma_idx_bounds(rows, cols, a, b);
        let ix = idx(cols, x, y);
        let ia = idx(cols, a, b);
        assert(uncovers(g0[ix], g2[ix]));
        assert(uncovers(g0[ia], g2[ia]));
        if (x, y) != (sr, sc) {
            assert(closed_if_new_blank(g0, g2, rows, cols, x, y));
        }
        assert(closed_at(g2, rows, cols, x, y));
        lemma_neighbors_are_moore(rows, cols, x, y);
        let nb = neighbors(rows, cols, x, y);
        assert(nb.contains((a, b)));
        let k = choose|k: int| 0 <= k < nb.len() && nb[k] == (a, b);
        assert(blocked(g2, cols, nb[k]));
    }
}

} // verus!
