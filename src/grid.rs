//! The mathematical model of a board: a grid of rows of cell values.

use vstd::prelude::*;

verus! {

/// A grid is square: as many cells in each row as there are rows.
pub open spec fn square(g: Seq<Seq<i32>>) -> bool {
    forall|i: int| 0 <= i < g.len() ==> (#[trigger] g[i]).len() == g.len()
}

/// `(i, j)` is a cell of the grid.
pub open spec fn in_grid(g: Seq<Seq<i32>>, i: int, j: int) -> bool {
    0 <= i < g.len() && 0 <= j < g.len()
}

/// The grid with cell `(i, j)` set to `v`.
pub open spec fn set_cell(g: Seq<Seq<i32>>, i: int, j: int, v: i32) -> Seq<Seq<i32>> {
    g.update(i, g[i].update(j, v))
}

/// `(i, j)` lies before `(r, c)` in the scan order: first index first.
pub open spec fn scans_before(i: int, j: int, r: int, c: int) -> bool {
    i < r || (i == r && j < c)
}

/// The first empty cell in scan order, if any: `Some((r, c))` holds `0` and
/// every cell before it is filled; `None` means no cell holds `0`.
pub open spec fn is_first_empty(g: Seq<Seq<i32>>, res: Option<(usize, usize)>) -> bool {
    match res {
        Some((r, c)) => {
            &&& in_grid(g, r as int, c as int)
            &&& g[r as int][c as int] == 0
            &&& forall|i: int, j: int|
                in_grid(g, i, j) && scans_before(i, j, r as int, c as int) ==> #[trigger] g[i][j]
                    != 0
        },
        None => forall|i: int, j: int| in_grid(g, i, j) ==> #[trigger] g[i][j] != 0,
    }
}

/// `(i, j)` shares a row, a column or a 3×3 box with `(r, c)`.
pub open spec fn same_unit(r: int, c: int, i: int, j: int) -> bool {
    i == r || j == c || (i / 3 == r / 3 && j / 3 == c / 3)
}

/// `(i, j)` is a cell other than `(r, c)` that shares a unit with it.
pub open spec fn peers(g: Seq<Seq<i32>>, r: int, c: int, i: int, j: int) -> bool {
    in_grid(g, i, j) && !(i == r && j == c) && same_unit(r, c, i, j)
}

/// `num` may stand at `(r, c)`: no other cell of its row, column or box holds it.
pub open spec fn placeable(g: Seq<Seq<i32>>, r: int, c: int, num: i32) -> bool {
    forall|i: int, j: int| #[trigger] peers(g, r, c, i, j) ==> g[i][j] != num
}

/// A digit that a peer of `(r, c)` already holds may not stand at `(r, c)`,
/// so `valid` rejects it there.
pub proof fn lemma_peer_digit_not_placeable(g: Seq<Seq<i32>>, r: int, c: int, i: int, j: int)
    requires
        peers(g, r, c, i, j),
    ensures
        !placeable(g, r, c, g[i][j]),
{
}

/// `b` has the shape of `g` and keeps every filled cell of `g`.
pub open spec fn keeps_filled(b: Seq<Seq<i32>>, g: Seq<Seq<i32>>) -> bool {
    &&& b.len() == g.len()
    &&& forall|i: int| 0 <= i < g.len() ==> (#[trigger] b[i]).len() == g[i].len()
    &&& forall|i: int, j: int| in_grid(g, i, j) && g[i][j] != 0 ==> #[trigger] b[i][j] == g[i][j]
}

/// `b` fills every empty cell of `g` with a digit of `1..=N` that no peer
/// in `b` repeats, and keeps the other cells of `g`.
pub open spec fn completes(b: Seq<Seq<i32>>, g: Seq<Seq<i32>>) -> bool {
    &&& keeps_filled(b, g)
    &&& forall|i: int, j: int|
        in_grid(g, i, j) && g[i][j] == 0 ==> {
            &&& 1 <= #[trigger] b[i][j] <= g.len()
            &&& placeable(b, i, j, b[i][j])
        }
}

/// `b` comes before `f` in scan order: at the first cell where they differ,
/// `b` holds the smaller value.
pub open spec fn scan_less(b: Seq<Seq<i32>>, f: Seq<Seq<i32>>) -> bool {
    exists|i: int, j: int|
        #![trigger b[i][j], f[i][j]]
        in_grid(b, i, j) && b[i][j] < f[i][j] && forall|k: int, l: int|
            in_grid(b, k, l) && scans_before(k, l, i, j) ==> #[trigger] b[k][l] == f[k][l]
}

/// Some grid completes `g`.
pub open spec fn completable(g: Seq<Seq<i32>>) -> bool {
    exists|b: Seq<Seq<i32>>| completes(b, g)
}

/// The number of cells holding `0` in a row.
pub open spec fn row_empties(s: Seq<i32>) -> nat
    decreases s.len(),
{
    if s.len() == 0 {
        0
    } else {
        row_empties(s.drop_last()) + if s.last() == 0 { 1nat } else { 0nat }
    }
}

/// The number of cells holding `0` in a grid.
pub open spec fn empties(g: Seq<Seq<i32>>) -> nat
    decreases g.len(),
{
    if g.len() == 0 {
        0
    } else {
        empties(g.drop_last()) + row_empties(g.last())
    }
}

proof fn lemma_row_empties_fill(s: Seq<i32>, j: int, v: i32)
    requires
        0 <= j < s.len(),
        s[j] == 0,
        v != 0,
    ensures
        row_empties(s.update(j, v)) + 1 == row_empties(s),
    decreases s.len(),
{
    let t = s.update(j, v);
    if j < s.len() - 1 {
        assert(t.drop_last() =~= s.drop_last().update(j, v));
        lemma_row_empties_fill(s.drop_last(), j, v);
    } else {
        assert(t.drop_last() =~= s.drop_last());
    }
}

/// Filling an empty cell leaves one empty cell fewer.
pub proof fn lemma_empties_fill(g: Seq<Seq<i32>>, i: int, j: int, v: i32)
    requires
        0 <= i < g.len(),
        0 <= j < g[i].len(),
        g[i][j] == 0,
        v != 0,
    ensures
        empties(set_cell(g, i, j, v)) + 1 == empties(g),
    decreases g.len(),
{
    let h = set_cell(g, i, j, v);
    if i < g.len() - 1 {
        assert(h.drop_last() =~= set_cell(g.drop_last(), i, j, v));
        lemma_empties_fill(g.drop_last(), i, j, v);
    } else {
        assert(h.drop_last() =~= g.drop_last());
        lemma_row_empties_fill(g[i], j, v);
    }
}

/// The digit that a completion puts in an empty cell may stand there.
pub proof fn lemma_completion_placeable(b: Seq<Seq<i32>>, g: Seq<Seq<i32>>, r: int, c: int)
    requires
        completes(b, g),
        in_grid(g, r, c),
        g[r][c] == 0,
    ensures
        placeable(g, r, c, b[r][c]),
{
    assert(1 <= b[r][c]);
    assert(placeable(b, r, c, b[r][c]));
    assert forall|i: int, j: int| #[trigger] peers(g, r, c, i, j) implies g[i][j] != b[r][c] by {
        assert(peers(b, r, c, i, j));
    }
}

/// A completion of `g` also completes `g` with one empty cell filled as the
/// completion fills it.
pub proof fn lemma_completion_step(b: Seq<Seq<i32>>, g: Seq<Seq<i32>>, r: int, c: int)
    requires
        completes(b, g),
        square(g),
        in_grid(g, r, c),
        g[r][c] == 0,
    ensures
        completes(b, set_cell(g, r, c, b[r][c])),
{
    let h = set_cell(g, r, c, b[r][c]);
    assert forall|i: int, j: int| in_grid(h, i, j) && h[i][j] != 0 implies #[trigger] b[i][j] == h[i][j] by {
        if !(i == r && j == c) {
            assert(h[i][j] == g[i][j]);
        }
    }
    assert forall|i: int, j: int| in_grid(h, i, j) && h[i][j] == 0 implies {
        &&& 1 <= #[trigger] b[i][j] <= h.len()
        &&& placeable(b, i, j, b[i][j])
    } by {
        assert(h[i][j] == g[i][j]);
    }
}

/// A completion of `g` with one empty cell filled by a digit that may stand
/// there is a completion of `g`.
pub proof fn lemma_completion_back(b: Seq<Seq<i32>>, g: Seq<Seq<i32>>, r: int, c: int, d: i32)
    requires
        completes(b, set_cell(g, r, c, d)),
        square(g),
        in_grid(g, r, c),
        g[r][c] == 0,
        1 <= d <= g.len(),
        placeable(g, r, c, d),
    ensures
        completes(b, g),
{
    let h = set_cell(g, r, c, d);
    assert(b[r][c] == d);
    assert forall|i: int, j: int| #[trigger] peers(b, r, c, i, j) implies b[i][j] != d by {
        if h[i][j] == 0 {
            assert(placeable(b, i, j, b[i][j]));
            assert(peers(b, i, j, r, c));
        } else {
            assert(peers(g, r, c, i, j));
            assert(h[i][j] == g[i][j]);
        }
    }
    assert forall|i: int, j: int| in_grid(g, i, j) && g[i][j] != 0 implies #[trigger] b[i][j] == g[i][j] by {
        assert(h[i][j] == g[i][j]);
    }
    assert forall|i: int, j: int| in_grid(g, i, j) && g[i][j] == 0 implies {
        &&& 1 <= #[trigger] b[i][j] <= g.len()
        &&& placeable(b, i, j, b[i][j])
    } by {
        if !(i == r && j == c) {
            assert(h[i][j] == g[i][j]);
        }
    }
}

} // verus!
