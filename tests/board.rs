use sudoku::Board;

type Grid = [[i32; 9]; 9];

const PUZZLE: Grid = [
    [5, 3, 0, 0, 7, 0, 0, 0, 0],
    [6, 0, 0, 1, 9, 5, 0, 0, 0],
    [0, 9, 8, 0, 0, 0, 0, 6, 0],
    [8, 0, 0, 0, 6, 0, 0, 0, 3],
    [4, 0, 0, 8, 0, 3, 0, 0, 1],
    [7, 0, 0, 0, 2, 0, 0, 0, 6],
    [0, 6, 0, 0, 0, 0, 2, 8, 0],
    [0, 0, 0, 4, 1, 9, 0, 0, 5],
    [0, 0, 0, 0, 8, 0, 0, 7, 9],
];

const SOLUTION: Grid = [
    [5, 3, 4, 6, 7, 8, 9, 1, 2],
    [6, 7, 2, 1, 9, 5, 3, 4, 8],
    [1, 9, 8, 3, 4, 2, 5, 6, 7],
    [8, 5, 9, 7, 6, 1, 4, 2, 3],
    [4, 2, 6, 8, 5, 3, 7, 9, 1],
    [7, 1, 3, 9, 2, 4, 8, 5, 6],
    [9, 6, 1, 5, 3, 7, 2, 8, 4],
    [2, 8, 7, 4, 1, 9, 6, 3, 5],
    [3, 4, 5, 2, 8, 6, 1, 7, 9],
];

fn rows(board: &Board<9, 9>) -> Vec<[i32; 9]> {
    board.iter().copied().collect()
}

fn each_digit_once(values: &[i32]) -> bool {
    let mut seen = [false; 10];
    for &v in values {
        if !(1..=9).contains(&v) || seen[v as usize] {
            return false;
        }
        seen[v as usize] = true;
    }
    values.len() == 9
}

fn is_solved(g: &[[i32; 9]]) -> bool {
    for r in 0..9 {
        if !each_digit_once(&g[r]) {
            return false;
        }
    }
    for c in 0..9 {
        let col: Vec<i32> = (0..9).map(|r| g[r][c]).collect();
        if !each_digit_once(&col) {
            return false;
        }
    }
    for b in 0..9 {
        let cells: Vec<i32> = (0..9).map(|k| g[3 * (b / 3) + k / 3][3 * (b % 3) + k % 3]).collect();
        if !each_digit_once(&cells) {
            return false;
        }
    }
    true
}

#[test]
fn new_board_is_empty() {
    let board: Board<9, 9> = Board::new();
    let g = rows(&board);
    assert_eq!(g.len(), 9);
    assert!(g.iter().all(|row| row.iter().all(|&v| v == 0)));
}

#[test]
fn default_matches_new() {
    let a: Board<9, 9> = Board::default();
    let b: Board<9, 9> = Board::new();
    assert_eq!(rows(&a), rows(&b));
}

#[test]
fn from_vec_keeps_grid() {
    let board = Board::from_vec(PUZZLE);
    assert_eq!(rows(&board), PUZZLE.to_vec());
}

#[test]
fn iter_yields_rows_in_order() {
    let board = Board::from_vec(SOLUTION);
    let mut it = board.iter();
    assert_eq!(it.next(), Some(&SOLUTION[0]));
    assert_eq!(it.next(), Some(&SOLUTION[1]));
    assert_eq!(board.iter().count(), 9);
    assert_eq!(board.iter().last(), Some(&SOLUTION[8]));
}

#[test]
fn find_empty_on_empty_board() {
    let board: Board<9, 9> = Board::new();
    assert_eq!(board.find_empty(), Some((0, 0)));
}

#[test]
fn find_empty_returns_first_in_scan_order() {
    let board = Board::from_vec(PUZZLE);
    assert_eq!(board.find_empty(), Some((0, 2)));
    let mut g = SOLUTION;
    g[4][7] = 0;
    g[4][2] = 0;
    g[7][0] = 0;
    let board = Board::from_vec(g);
    assert_eq!(board.find_empty(), Some((4, 2)));
}

#[test]
fn find_empty_on_full_board() {
    let board = Board::from_vec(SOLUTION);
    assert_eq!(board.find_empty(), None);
}

#[test]
fn valid_holds_for_every_cell_of_solution() {
    let board = Board::from_vec(SOLUTION);
    for r in 0..9 {
        for c in 0..9 {
            assert!(board.valid((r, c), SOLUTION[r][c]));
        }
    }
}

#[test]
fn valid_rejects_row_duplicate() {
    let board = Board::from_vec(PUZZLE);
    // 7 already stands at (0, 4)
    assert!(!board.valid((0, 8), 7));
}

#[test]
fn valid_rejects_column_duplicate() {
    let board = Board::from_vec(PUZZLE);
    // 4 already stands at (4, 0)
    assert!(!board.valid((8, 0), 4));
}

#[test]
fn valid_rejects_box_duplicate() {
    let board = Board::from_vec(PUZZLE);
    // 6 already stands at (1, 0), in the top left box only
    assert!(!board.valid((0, 2), 6));
}

#[test]
fn valid_accepts_free_digit() {
    let board = Board::from_vec(PUZZLE);
    assert!(board.valid((0, 2), 4));
    assert!(board.valid((0, 2), 1));
    assert!(!board.valid((0, 2), 3));
}

#[test]
fn valid_ignores_the_cell_itself() {
    let board = Board::from_vec(PUZZLE);
    assert!(board.valid((0, 0), 5));
}

#[test]
fn valid_on_empty_board() {
    let board: Board<9, 9> = Board::new();
    for d in 1..=9 {
        assert!(board.valid((8, 8), d));
    }
}

#[test]
fn solve_classic_puzzle() {
    let mut board = Board::from_vec(PUZZLE);
    assert!(board.solve());
    let g = rows(&board);
    assert_eq!(g, SOLUTION.to_vec());
    assert!(g.iter().all(|row| row.iter().all(|&v| v != 0)));
    assert!(is_solved(&g));
}

#[test]
fn solve_keeps_givens_and_fills_every_cell() {
    let mut g = SOLUTION;
    for r in 0..9 {
        for c in 0..9 {
            if (r + c) % 2 == 0 {
                g[r][c] = 0;
            }
        }
    }
    let mut board = Board::from_vec(g);
    assert!(board.solve());
    let out = rows(&board);
    for r in 0..9 {
        for c in 0..9 {
            if g[r][c] != 0 {
                assert_eq!(out[r][c], g[r][c]);
            }
        }
    }
    assert!(is_solved(&out));
}

#[test]
fn solve_empty_board_gives_first_solution() {
    let mut board: Board<9, 9> = Board::new();
    assert!(board.solve());
    let g = rows(&board);
    assert!(is_solved(&g));
    assert_eq!(g[0], [1, 2, 3, 4, 5, 6, 7, 8, 9]);
    assert_eq!(g[1], [4, 5, 6, 7, 8, 9, 1, 2, 3]);
}

#[test]
fn solve_full_board_returns_true_unchanged() {
    let mut board = Board::from_vec(SOLUTION);
    assert!(board.solve());
    assert_eq!(rows(&board), SOLUTION.to_vec());
}

#[test]
fn solve_full_board_with_conflict_still_returns_true() {
    let mut g = SOLUTION;
    g[0][0] = 3;
    let mut board = Board::from_vec(g);
    assert!(board.solve());
    assert_eq!(rows(&board), g.to_vec());
}

#[test]
fn solve_unsolvable_restores_board() {
    let mut g = SOLUTION;
    // (0, 0) takes 5; then (0, 8) can only take 2, which a given in its
    // column already holds, so the search backtracks and gives up.
    g[0][0] = 0;
    g[0][8] = 0;
    g[1][8] = 2;
    g[1][1] = 0;
    g[5][5] = 0;
    let mut board = Board::from_vec(g);
    assert!(!board.solve());
    assert_eq!(rows(&board), g.to_vec());
}

#[test]
fn solve_duplicate_givens_in_row_fails() {
    let mut g = PUZZLE;
    // two fives in the first row, and the rest of that row blocked off
    g[0] = [5, 3, 0, 5, 7, 0, 0, 0, 0];
    g[1] = [6, 0, 0, 1, 9, 5, 0, 0, 0];
    let blocked: Grid = {
        let mut b = g;
        b[0] = [5, 3, 1, 5, 7, 2, 4, 6, 0];
        b[3][8] = 8;
        b[4][8] = 9;
        b
    };
    let mut board = Board::from_vec(blocked);
    assert!(!board.solve());
    assert_eq!(rows(&board), blocked.to_vec());
}
