//! The textual form of a board: each cell in decimal followed by a space,
//! `| ` between boxes, and a line of dashes between bands of boxes.

use vstd::prelude::*;
use vstd::string::StringExecFns;

verus! {

/// The character of a decimal digit.
pub open spec fn digit_char(d: int) -> char {
    if d == 0 {
        '0'
    } else if d == 1 {
        '1'
    } else if d == 2 {
        '2'
    } else if d == 3 {
        '3'
    } else if d == 4 {
        '4'
    } else if d == 5 {
        '5'
    } else if d == 6 {
        '6'
    } else if d == 7 {
        '7'
    } else if d == 8 {
        '8'
    } else {
        '9'
    }
}

/// The decimal digits of `n`, most significant first, without leading zeros.
pub open spec fn digits(n: nat) -> Seq<char>
    decreases n,
{
    if n < 10 {
        seq![digit_char(n as int)]
    } else {
        digits(n / 10) + seq![digit_char((n % 10) as int)]
    }
}

/// `v` in decimal, with a leading `-` when negative.
pub open spec fn decimal(v: int) -> Seq<char> {
    if v < 0 {
        seq!['-'] + digits((-v) as nat)
    } else {
        digits(v as nat)
    }
}

/// The line between two bands of boxes: eleven dashes, each followed by a space.
pub open spec fn band_line() -> Seq<char> {
    Seq::new(22, |k: int| if k % 2 == 0 { '-' } else { ' ' }) + seq!['\n']
}

/// Cell `(i, j)`: its value, a space, and `| ` after every third column but the last.
pub open spec fn cell_text(g: Seq<Seq<i32>>, i: int, j: int) -> Seq<char> {
    decimal(g[i][j] as int) + seq![' '] + if (j + 1) % 3 == 0 && j + 1 != g.len() {
        seq!['|', ' ']
    } else {
        Seq::empty()
    }
}

/// The first `k` cells of row `i`.
pub open spec fn row_text(g: Seq<Seq<i32>>, i: int, k: nat) -> Seq<char>
    decreases k,
{
    if k == 0 {
        Seq::empty()
    } else {
        row_text(g, i, (k - 1) as nat) + cell_text(g, i, k - 1)
    }
}

/// Row `i` with its newline, and the band line after every third row but the last.
pub open spec fn line_text(g: Seq<Seq<i32>>, i: int) -> Seq<char> {
    row_text(g, i, g.len()) + seq!['\n'] + if (i + 1) % 3 == 0 && i + 1 != g.len() {
        band_line()
    } else {
        Seq::empty()
    }
}

/// The first `k` rows.
pub open spec fn rows_text(g: Seq<Seq<i32>>, k: nat) -> Seq<char>
    decreases k,
{
    if k == 0 {
        Seq::empty()
    } else {
        rows_text(g, (k - 1) as nat) + line_text(g, k - 1)
    }
}

/// The whole board, followed by an empty line.
pub open spec fn board_text(g: Seq<Seq<i32>>) -> Seq<char> {
    rows_text(g, g.len()) + seq!['\n']
}

fn digit_str(d: u32) -> (s: &'static str)
    requires
        d < 10,
    ensures
        s@ == seq![digit_char(d as int)],
{
    proof {
        reveal_strlit("0");
        reveal_strlit("1");
        reveal_strlit("2");
        reveal_strlit("3");
        reveal_strlit("4");
        reveal_strlit("5");
        reveal_strlit("6");
        reveal_strlit("7");
        reveal_strlit("8");
        reveal_strlit("9");
    }
    match d {
        0 => "0",
        1 => "1",
        2 => "2",
        3 => "3",
        4 => "4",
        5 => "5",
        6 => "6",
        7 => "7",
        8 => "8",
        _ => "9",
    }
}

fn push_digits(out: &mut String, n: u32)
    ensures
        final(out)@ == old(out)@ + digits(n as nat),
    decreases n,
{
    if n >= 10 {
        push_digits(out, n / 10);
    }
    out.append(digit_str(n % 10));
    assert(final(out)@ =~= old(out)@ + digits(n as nat)) by {
        if n >= 10 {
            assert(old(out)@ + digits(n as nat) =~= old(out)@ + digits((n / 10) as nat) + seq![digit_char((n % 10) as int)]);
        }
    }
}

/// Appends `v` in decimal.
pub fn push_decimal(out: &mut String, v: i32)
    ensures
        final(out)@ == old(out)@ + decimal(v as int),
{
    if v < 0 {
        proof {
            reveal_strlit("-");
        }
        out.append("-");
        let m = (-(v as i64)) as u32;
        push_digits(out, m);
        assert(final(out)@ =~= old(out)@ + decimal(v as int));
    } else {
        push_digits(out, v as u32);
    }
}

} // verus!
