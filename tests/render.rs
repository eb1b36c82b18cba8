use sudoku::Board;

const BAND: &str = "- - - - - - - - - - - ";

#[test]
fn render_empty_board_exact() {
    let board: Board<9, 9> = Board::new();
    let row = "0 0 0 | 0 0 0 | 0 0 0 \n";
    let band = format!("{}\n", BAND);
    let expected = format!(
        "{r}{r}{r}{b}{r}{r}{r}{b}{r}{r}{r}\n",
        r = row,
        b = band
    );
    assert_eq!(board.render(), expected);
}

#[test]
fn render_empty_board_separator_counts() {
    let board: Board<9, 9> = Board::new();
    let text = board.render();
    let lines: Vec<&str> = text.lines().collect();
    let bands: Vec<usize> = lines
        .iter()
        .enumerate()
        .filter(|(_, l)| **l == BAND)
        .map(|(k, _)| k)
        .collect();
    assert_eq!(bands, vec![3, 7]);
    let rows: Vec<&&str> = lines.iter().filter(|l| l.starts_with('0')).collect();
    assert_eq!(rows.len(), 9);
    for row in rows {
        assert_eq!(row.matches("| ").count(), 2);
        let parts: Vec<&str> = row.split("| ").collect();
        assert_eq!(parts, vec!["0 0 0 ", "0 0 0 ", "0 0 0 "]);
    }
}

#[test]
fn render_solved_row_and_values() {
    let mut g = [[0i32; 9]; 9];
    g[0] = [5, 3, 4, 6, 7, 8, 9, 1, 2];
    let board = Board::from_vec(g);
    let text = board.render();
    assert!(text.starts_with("5 3 4 | 6 7 8 | 9 1 2 \n0 0 0 | "));
    assert!(text.ends_with("0 0 0 | 0 0 0 | 0 0 0 \n\n"));
}

#[test]
fn render_writes_multi_digit_and_negative_values() {
    let mut g = [[0i32; 9]; 9];
    g[0][0] = -12;
    g[0][1] = 305;
    g[0][8] = i32::MIN;
    let board = Board::from_vec(g);
    let text = board.render();
    let first = text.lines().next().unwrap();
    assert_eq!(first, "-12 305 0 | 0 0 0 | 0 0 -2147483648 ");
}

#[test]
fn render_small_board() {
    let board = Board::from_vec([[1, 2, 3], [4, 5, 6], [7, 8, 9]]);
    assert_eq!(board.render(), "1 2 3 \n4 5 6 \n7 8 9 \n\n");
}
