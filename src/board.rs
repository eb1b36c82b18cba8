//! The board itself: construction, queries and the solver.

use vstd::prelude::*;
use vstd::std_specs::slice::into_iter_elts;
use vstd::string::StringExecFns;
use crate::grid::{
    completable, completes, empties, in_grid, is_first_empty, lemma_completion_back,
    lemma_completion_placeable, lemma_completion_step, lemma_empties_fill, peers, placeable,
    scan_less, scans_before, set_cell, square,
};
use crate::text::{band_line, board_text, cell_text, line_text, push_decimal, row_text, rows_text};

verus! {

/// A Sudoku board of `HEIGHT` rows of `WIDTH` cells each.
pub struct Board<const WIDTH: usize, const HEIGHT: usize> {
    elements: [[i32; WIDTH]; HEIGHT],
}

impl<const WIDTH: usize, const HEIGHT: usize> View for Board<WIDTH, HEIGHT> {
    type V = Seq<Seq<i32>>;

    closed spec fn view(&self) -> Seq<Seq<i32>> {
        self.elements@.map_values(|row: [i32; WIDTH]| row@)
    }
}

impl<const WIDTH: usize, const HEIGHT: usize> Board<WIDTH, HEIGHT> {
    /// The shape that the queries and the solver work on: a square board
    /// whose side is a whole number of 3×3 boxes.
    pub open spec fn well_shaped() -> bool {
        WIDTH == HEIGHT && WIDTH % 3 == 0
    }

    /// The view has `HEIGHT` rows of `WIDTH` cells.
    pub proof fn lemma_view_shape(&self)
        ensures
            self@.len() == HEIGHT,
            forall|i: int| 0 <= i < HEIGHT ==> (#[trigger] self@[i]).len() == WIDTH,
    {
    }

    /// A board with every cell empty.
    pub fn new() -> (b: Self)
        ensures
            b@.len() == HEIGHT,
            forall|i: int| 0 <= i < HEIGHT ==> (#[trigger] b@[i]) == Seq::new(WIDTH as nat, |j: int| 0i32),
    {
        let b = Board { elements: [[0i32; WIDTH]; HEIGHT] };
        proof {
            assert forall|i: int| 0 <= i < HEIGHT implies (#[trigger] b@[i]) == Seq::new(WIDTH as nat, |j: int| 0i32) by {
                assert(b@[i] =~= Seq::new(WIDTH as nat, |j: int| 0i32));
            }
        }
        b
    }

    /// A board holding the given grid as it is.
    pub fn from_vec(vec: [[i32; WIDTH]; HEIGHT]) -> (b: Self)
        ensures
            b@ == vec@.map_values(|row: [i32; WIDTH]| row@),
    {
        Board { elements: vec }
    }

    /// The rows in order, read-only.
    pub fn iter(&self) -> (r: core::slice::Iter<'_, [i32; WIDTH]>)
        ensures
            into_iter_elts(r).map_values(|row: [i32; WIDTH]| row@) == self@,
    {
        self.elements.iter()
    }

    /// The first empty cell in scan order: the first index runs slowest.
    pub fn find_empty(&self) -> (r: Option<(usize, usize)>)
        requires
            WIDTH == HEIGHT,
        ensures
            is_first_empty(self@, r),
    {
        let ghost g = self@;
        for i in 0..WIDTH
            invariant
                g == self@,
                WIDTH == HEIGHT,
                g.len() == WIDTH,
                square(g),
                forall|i2: int, j2: int| 0 <= i2 < i && 0 <= j2 < WIDTH ==> #[trigger] g[i2][j2] != 0,
        {
            for j in 0..HEIGHT
                invariant
                    g == self@,
                    WIDTH == HEIGHT,
                    g.len() == WIDTH,
                    square(g),
                    0 <= i < WIDTH,
                    forall|i2: int, j2: int| 0 <= i2 < i && 0 <= j2 < WIDTH ==> #[trigger] g[i2][j2] != 0,
                    forall|j2: int| 0 <= j2 < j ==> #[trigger] g[i as int][j2] != 0,
            {
                if self.elements[i][j] == 0 {
                    return Some((i, j));
                }
            }
        }
        None
    }

    /// Whether `num` may stand at `pos`: no other cell of the same row,
    /// column or 3×3 box holds it. The cell at `pos` itself is not compared.
    pub fn valid(&self, pos: (usize, usize), num: i32) -> (r: bool)
        requires
            Self::well_shaped(),
            pos.0 < WIDTH,
            pos.1 < WIDTH,
        ensures
            r == placeable(self@, pos.0 as int, pos.1 as int, num),
    {
        let ghost g = self@;
        let ghost (r0, c0) = (pos.0 as int, pos.1 as int);
        for i in 0..WIDTH
            invariant
                g == self@,
                Self::well_shaped(),
                g.len() == WIDTH,
                square(g),
                pos.0 < WIDTH,
                pos.1 < WIDTH,
                r0 == pos.0,
                c0 == pos.1,
                forall|i2: int| 0 <= i2 < i && i2 != r0 ==> #[trigger] g[i2][c0] != num,
        {
            if self.elements[i][pos.1] == num && i != pos.0 {
                assert(peers(g, r0, c0, i as int, c0));
                return false;
            }
        }
        for j in 0..HEIGHT
            invariant
                g == self@,
                Self::well_shaped(),
                g.len() == WIDTH,
                square(g),
                pos.0 < WIDTH,
                pos.1 < WIDTH,
                r0 == pos.0,
                c0 == pos.1,
                forall|i2: int| 0 <= i2 < WIDTH && i2 != r0 ==> #[trigger] g[i2][c0] != num,
                forall|j2: int| 0 <= j2 < j && j2 != c0 ==> #[trigger] g[r0][j2] != num,
        {
            if self.elements[pos.0][j] == num && j != pos.1 {
                assert(peers(g, r0, c0, r0, j as int));
                return false;
            }
        }
        let start_i = pos.0 - pos.0 % 3;
        let start_j = pos.1 - pos.1 % 3;
        assert(start_i + 3 <= WIDTH && start_j + 3 <= WIDTH);
        for i in 0..3usize
            invariant
                g == self@,
                Self::well_shaped(),
                g.len() == WIDTH,
                square(g),
                pos.0 < WIDTH,
                pos.1 < WIDTH,
                r0 == pos.0,
                c0 == pos.1,
                start_i == r0 - r0 % 3,
                start_j == c0 - c0 % 3,
                start_i + 3 <= WIDTH,
                start_j + 3 <= WIDTH,
                forall|i2: int| 0 <= i2 < WIDTH && i2 != r0 ==> #[trigger] g[i2][c0] != num,
                forall|j2: int| 0 <= j2 < WIDTH && j2 != c0 ==> #[trigger] g[r0][j2] != num,
                forall|a: int, b: int|
                    start_i <= a < start_i + i && start_j <= b < start_j + 3 && !(a == r0 && b == c0)
                        ==> #[trigger] g[a][b] != num,
        {
            for j in 0..3usize
                invariant
                    g == self@,
                    Self::well_shaped(),
                    g.len() == WIDTH,
                    square(g),
                    pos.0 < WIDTH,
                    pos.1 < WIDTH,
                    r0 == pos.0,
                    c0 == pos.1,
                    0 <= i < 3,
                    start_i == r0 - r0 % 3,
                    start_j == c0 - c0 % 3,
                    start_i + 3 <= WIDTH,
                    start_j + 3 <= WIDTH,
                    forall|i2: int| 0 <= i2 < WIDTH && i2 != r0 ==> #[trigger] g[i2][c0] != num,
                    forall|j2: int| 0 <= j2 < WIDTH && j2 != c0 ==> #[trigger] g[r0][j2] != num,
                    forall|a: int, b: int|
                        start_i <= a < start_i + i && start_j <= b < start_j + 3 && !(a == r0 && b == c0)
                            ==> #[trigger] g[a][b] != num,
                    forall|b: int|
                        start_j <= b < start_j + j && !(start_i + i == r0 && b == c0)
                            ==> #[trigger] g[start_i + i][b] != num,
            {
                let (ci, cj) = (start_i + i, start_j + j);
                if self.elements[ci][cj] == num && !(ci == pos.0 && cj == pos.1) {
                    assert(peers(g, r0, c0, ci as int, cj as int));
                    return false;
                }
            }
        }
        proof {
            assert forall|i2: int, j2: int| #[trigger] peers(g, r0, c0, i2, j2) implies g[i2][j2] != num by {
                if i2 != r0 && j2 != c0 {
                    assert(start_i <= i2 < start_i + 3 && start_j <= j2 < start_j + 3);
                }
            }
        }
        true
    }

    /// Fills the empty cells by backtracking search: the first empty cell in
    /// scan order takes the smallest digit that may stand there and leads to
    /// a solution of the rest. Returns whether a completion exists; on
    /// success the board holds the first completion in scan order, on
    /// failure it is as it was.
    pub fn solve(&mut self) -> (r: bool)
        requires
            Self::well_shaped(),
            WIDTH < 0x7fff_ffff,
        ensures
            r == completable(old(self)@),
            r ==> completes(final(self)@, old(self)@),
            r ==> forall|b: Seq<Seq<i32>>|
                completes(b, old(self)@) ==> !#[trigger] scan_less(b, final(self)@),
            !r ==> final(self)@ == old(self)@,
        decreases empties(old(self)@),
    {
        let ghost g = self@;
        proof {
            self.lemma_view_shape();
        }
        let empty = self.find_empty();
        if empty.is_none() {
            proof {
                assert(completes(g, g));
                assert forall|b: Seq<Seq<i32>>| completes(b, g) implies !#[trigger] scan_less(b, g) by {
                    assert forall|i: int, j: int| in_grid(g, i, j) implies b[i][j] == #[trigger] g[i][j] by {
                    }
                }
            }
            return true;
        }
        let pos = empty.unwrap();
        let ghost (r0, c0) = (pos.0 as int, pos.1 as int);
        for nums in 0..WIDTH
            invariant
                Self::well_shaped(),
                WIDTH < 0x7fff_ffff,
                self@ == g,
                g == old(self)@,
                g.len() == WIDTH,
                square(g),
                pos.0 < WIDTH,
                pos.1 < WIDTH,
                r0 == pos.0,
                c0 == pos.1,
                g[r0][c0] == 0,
                forall|i: int, j: int|
                    in_grid(g, i, j) && scans_before(i, j, r0, c0) ==> #[trigger] g[i][j] != 0,
                forall|b: Seq<Seq<i32>>| #[trigger] completes(b, g) ==> b[r0][c0] > nums,
        {
            let d = (nums + 1) as i32;
            if self.valid(pos, d) {
                self.elements[pos.0][pos.1] = d;
                let ghost h = set_cell(g, r0, c0, d);
                proof {
                    assert(self@ =~= h);
                    lemma_empties_fill(g, r0, c0, d);
                }
                if self.solve() {
                    proof {
                        let f = self@;
                        lemma_completion_back(f, g, r0, c0, d);
                        assert(completable(g));
                        assert forall|b: Seq<Seq<i32>>| completes(b, g) implies !#[trigger] scan_less(b, f) by {
                            if scan_less(b, f) {
                                let (i, j) = choose|i: int, j: int|
                                    #![trigger b[i][j], f[i][j]]
                                    in_grid(b, i, j) && b[i][j] < f[i][j] && forall|k: int, l: int|
                                        in_grid(b, k, l) && scans_before(k, l, i, j) ==> #[trigger] b[k][l] == f[k][l];
                                if scans_before(i, j, r0, c0) {
                                    assert(g[i][j] != 0);
                                } else if i == r0 && j == c0 {
                                } else {
                                    assert(b[r0][c0] == f[r0][c0]);
                                    lemma_completion_step(b, g, r0, c0);
                                    assert(set_cell(g, r0, c0, b[r0][c0]) == h);
                                }
                            }
                        }
                    }
                    return true;
                }
                self.elements[pos.0][pos.1] = 0;
                proof {
                    assert(h[r0].update(c0, 0) =~= g[r0]);
                    assert(set_cell(h, r0, c0, 0) =~= g);
                    assert(self@ =~= set_cell(h, r0, c0, 0));
                    assert forall|b: Seq<Seq<i32>>| #[trigger] completes(b, g) implies b[r0][c0] > nums + 1 by {
                        if b[r0][c0] == d {
                            lemma_completion_step(b, g, r0, c0);
                        }
                    }
                }
            } else {
                proof {
                    assert forall|b: Seq<Seq<i32>>| #[trigger] completes(b, g) implies b[r0][c0] > nums + 1 by {
                        lemma_completion_placeable(b, g, r0, c0);
                    }
                }
            }
        }
        false
    }

    /// The board as text, one line per row, with `| ` between boxes and a
    /// line of dashes between bands of boxes, followed by an empty line.
    pub fn render(&self) -> (r: String)
        requires
            WIDTH == HEIGHT,
        ensures
            r@ == board_text(self@),
    {
        let ghost g = self@;
        proof {
            self.lemma_view_shape();
            reveal_strlit(" ");
            reveal_strlit("| ");
            reveal_strlit("\n");
            reveal_strlit("- - - - - - - - - - - \n");
            assert("- - - - - - - - - - - \n"@ =~= band_line());
        }
        let mut out = String::new();
        for i in 0..WIDTH
            invariant
                g == self@,
                WIDTH == HEIGHT,
                g.len() == WIDTH,
                square(g),
                "- - - - - - - - - - - \n"@ == band_line(),
                " "@ == seq![' '],
                "| "@ == seq!['|', ' '],
                "\n"@ == seq!['\n'],
                out@ == rows_text(g, i as nat),
        {
            for j in 0..HEIGHT
                invariant
                    g == self@,
                    WIDTH == HEIGHT,
                    g.len() == WIDTH,
                    square(g),
                    0 <= i < WIDTH,
                    " "@ == seq![' '],
                    "| "@ == seq!['|', ' '],
                    out@ == rows_text(g, i as nat) + row_text(g, i as int, j as nat),
            {
                let ghost before = out@;
                push_decimal(&mut out, self.elements[i][j]);
                out.append(" ");
                if (j + 1) % 3 == 0 && j + 1 != WIDTH {
                    out.append("| ");
                }
                assert(out@ =~= before + cell_text(g, i as int, j as int));
            }
            out.append("\n");
            if (i + 1) % 3 == 0 && i + 1 != WIDTH {
                out.append("- - - - - - - - - - - \n");
            }
            assert(out@ =~= rows_text(g, i as nat) + line_text(g, i as int));
        }
        out.append("\n");
        out
    }
}


impl<const WIDTH: usize, const HEIGHT: usize> Default for Board<WIDTH, HEIGHT> {
    /// The board with every cell empty.
    fn default() -> (b: Self)
        ensures
            b@.len() == HEIGHT,
            forall|i: int| 0 <= i < HEIGHT ==> (#[trigger] b@[i]) == Seq::new(WIDTH as nat, |j: int| 0i32),
    {
        Self::new()
    }
}

} // verus!
