//! The classic 9×9 rules: when a grid is a solved Sudoku, and what the
//! solver's results mean for such grids.

use vstd::prelude::*;
use vstd::set_lib::{lemma_int_range, lemma_subset_equality, set_int_range};
use crate::grid::{
    completable, completes, in_grid, keeps_filled, lemma_completion_placeable, peers, placeable,
    square,
};

verus! {

/// Column `c` of the grid, top to bottom.
pub open spec fn column(g: Seq<Seq<i32>>, c: int) -> Seq<i32> {
    Seq::new(g.len(), |k: int| g[k][c])
}

/// Box `b` of a 9×9 grid (numbered row-major from the top left), read row by row.
pub open spec fn box_cells(g: Seq<Seq<i32>>, b: int) -> Seq<i32> {
    Seq::new(9, |k: int| g[3 * (b / 3) + k / 3][3 * (b % 3) + k % 3])
}

/// The sequence holds each digit `1..=9` exactly once and nothing else.
pub open spec fn each_digit_once(s: Seq<i32>) -> bool {
    &&& s.len() == 9
    &&& s.no_duplicates()
    &&& forall|k: int| 0 <= k < 9 ==> 1 <= #[trigger] s[k] <= 9
    &&& forall|d: i32| 1 <= d <= 9 ==> #[trigger] s.contains(d)
}

/// A solved 9×9 Sudoku: every row, column and box holds each digit once.
pub open spec fn solved(g: Seq<Seq<i32>>) -> bool {
    &&& g.len() == 9
    &&& square(g)
    &&& forall|r: int| 0 <= r < 9 ==> each_digit_once(#[trigger] g[r])
    &&& forall|c: int| 0 <= c < 9 ==> each_digit_once(#[trigger] column(g, c))
    &&& forall|b: int| 0 <= b < 9 ==> each_digit_once(#[trigger] box_cells(g, b))
}

/// No cell shares a unit with another cell of the same value.
pub open spec fn conflict_free(g: Seq<Seq<i32>>) -> bool {
    forall|i: int, j: int| in_grid(g, i, j) ==> #[trigger] placeable(g, i, j, g[i][j])
}

/// The box holding cell `(i, j)`, and the position of the cell in it.
proof fn lemma_box_position(i: int, j: int)
    requires
        0 <= i < 9,
        0 <= j < 9,
    ensures
        0 <= 3 * (i / 3) + j / 3 < 9,
        0 <= 3 * (i % 3) + j % 3 < 9,
        ({
            let b = 3 * (i / 3) + j / 3;
            let k = 3 * (i % 3) + j % 3;
            3 * (b / 3) + k / 3 == i && 3 * (b % 3) + k % 3 == j
        }),
{
}

/// Nine distinct digits are all nine digits.
proof fn lemma_nine_distinct_digits(s: Seq<i32>)
    requires
        s.len() == 9,
        s.no_duplicates(),
        forall|k: int| 0 <= k < 9 ==> 1 <= #[trigger] s[k] <= 9,
    ensures
        forall|d: i32| 1 <= d <= 9 ==> #[trigger] s.contains(d),
{
    let t = s.map_values(|x: i32| x as int);
    assert(t.no_duplicates()) by {
        assert forall|a: int, b: int| 0 <= a < t.len() && 0 <= b < t.len() && a != b implies t[a] != t[b] by {
            assert(s[a] != s[b]);
        }
    }
    t.unique_seq_to_set();
    lemma_int_range(1, 10);
    assert(t.to_set().subset_of(set_int_range(1, 10)));
    lemma_subset_equality(t.to_set(), set_int_range(1, 10));
    assert forall|d: i32| 1 <= d <= 9 implies #[trigger] s.contains(d) by {
        assert(set_int_range(1, 10).contains(d as int));
        assert(t.to_set().contains(d as int));
        let k = choose|k: int| 0 <= k < t.len() && t[k] == d as int;
        assert(s[k] == d);
    }
}

/// In a solved Sudoku every cell's own value may stand where it is: `valid`
/// holds of each cell with its current value.
pub proof fn lemma_solved_cells_placeable(g: Seq<Seq<i32>>)
    requires
        solved(g),
    ensures
        conflict_free(g),
{
    assert forall|r: int, c: int| in_grid(g, r, c) implies #[trigger] placeable(g, r, c, g[r][c]) by {
        assert forall|i: int, j: int| #[trigger] peers(g, r, c, i, j) implies g[i][j] != g[r][c] by {
            if i == r {
                assert(each_digit_once(g[r]));
            } else if j == c {
                let col = column(g, c);
                assert(each_digit_once(col));
                assert(col[i] == g[i][j] && col[r] == g[r][c]);
            } else {
                lemma_box_position(r, c);
                lemma_box_position(i, j);
                let b = 3 * (r / 3) + c / 3;
                let bx = box_cells(g, b);
                assert(each_digit_once(bx));
                assert(bx[3 * (r % 3) + c % 3] == g[r][c]);
                assert(bx[3 * (i % 3) + j % 3] == g[i][j]);
            }
        }
    }
}

/// A conflict-free 9×9 grid of digits `1..=9` is a solved Sudoku.
pub proof fn lemma_conflict_free_solved(g: Seq<Seq<i32>>)
    requires
        g.len() == 9,
        square(g),
        conflict_free(g),
        forall|i: int, j: int| in_grid(g, i, j) ==> 1 <= #[trigger] g[i][j] <= 9,
    ensures
        solved(g),
{
    assert forall|r: int| 0 <= r < 9 implies each_digit_once(#[trigger] g[r]) by {
        let s = g[r];
        assert forall|a: int, b: int| 0 <= a < 9 && 0 <= b < 9 && a != b implies s[a] != s[b] by {
            assert(placeable(g, r, a, g[r][a]));
            assert(peers(g, r, a, r, b));
        }
        lemma_nine_distinct_digits(s);
    }
    assert forall|c: int| 0 <= c < 9 implies each_digit_once(#[trigger] column(g, c)) by {
        let s = column(g, c);
        assert forall|a: int, b: int| 0 <= a < 9 && 0 <= b < 9 && a != b implies s[a] != s[b] by {
            assert(placeable(g, a, c, g[a][c]));
            assert(peers(g, a, c, b, c));
        }
        assert forall|k: int| 0 <= k < 9 implies 1 <= #[trigger] s[k] <= 9 by {
            assert(in_grid(g, k, c));
        }
        lemma_nine_distinct_digits(s);
    }
    assert forall|bi: int| 0 <= bi < 9 implies each_digit_once(#[trigger] box_cells(g, bi)) by {
        let s = box_cells(g, bi);
        assert forall|a: int, b: int| 0 <= a < 9 && 0 <= b < 9 && a != b implies s[a] != s[b] by {
            let (ra, ca) = (3 * (bi / 3) + a / 3, 3 * (bi % 3) + a % 3);
            let (rb, cb) = (3 * (bi / 3) + b / 3, 3 * (bi % 3) + b % 3);
            assert(ra / 3 == bi / 3 && rb / 3 == bi / 3);
            assert(ca / 3 == bi % 3 && cb / 3 == bi % 3);
            assert(placeable(g, ra, ca, g[ra][ca]));
            assert(peers(g, ra, ca, rb, cb));
        }
        assert forall|k: int| 0 <= k < 9 implies 1 <= #[trigger] s[k] <= 9 by {
            assert(in_grid(g, 3 * (bi / 3) + k / 3, 3 * (bi % 3) + k % 3));
        }
        lemma_nine_distinct_digits(s);
    }
}

/// For a 9×9 grid that some solved Sudoku extends, every completion (and so
/// the board that a successful `solve` leaves) is a solved Sudoku.
pub proof fn lemma_completion_solved(g: Seq<Seq<i32>>, s: Seq<Seq<i32>>, b: Seq<Seq<i32>>)
    requires
        g.len() == 9,
        square(g),
        solved(s),
        keeps_filled(s, g),
        completes(b, g),
    ensures
        solved(b),
{
    lemma_solved_cells_placeable(s);
    assert forall|i: int, j: int| in_grid(b, i, j) implies 1 <= #[trigger] b[i][j] <= 9 by {
        if g[i][j] != 0 {
            assert(each_digit_once(s[i]));
            assert(s[i][j] == b[i][j]);
        }
    }
    assert forall|r: int, c: int| in_grid(b, r, c) implies #[trigger] placeable(b, r, c, b[r][c]) by {
        assert forall|i: int, j: int| #[trigger] peers(b, r, c, i, j) implies b[i][j] != b[r][c] by {
            if g[r][c] == 0 {
                assert(placeable(b, r, c, b[r][c]));
            } else if g[i][j] == 0 {
                assert(placeable(b, i, j, b[i][j]));
                assert(peers(b, i, j, r, c));
            } else {
                assert(placeable(s, r, c, s[r][c]));
                assert(peers(s, r, c, i, j));
            }
        }
    }
    lemma_conflict_free_solved(b);
}

/// An empty cell where no digit `1..=N` may stand leaves the grid without a
/// completion, so `solve` fails on it and leaves the board unchanged.
pub proof fn lemma_blocked_cell_not_completable(g: Seq<Seq<i32>>, r: int, c: int)
    requires
        in_grid(g, r, c),
        g[r][c] == 0,
        forall|d: i32| 1 <= d <= g.len() ==> !#[trigger] placeable(g, r, c, d),
    ensures
        !completable(g),
{
    assert forall|b: Seq<Seq<i32>>| !completes(b, g) by {
        if completes(b, g) {
            lemma_completion_placeable(b, g, r, c);
        }
    }
}

} // verus!
