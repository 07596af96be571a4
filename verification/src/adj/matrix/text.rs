//! Text rendering of rows and matrices, for debugging.
//!
//! A weight is written in decimal, with a leading `-` when it is negative. A
//! row is its weights with a single space between them. A matrix is its rows,
//! each followed by a line feed.

use super::row::Row;
use super::Matrix;
use vstd::prelude::*;
use vstd::string::StringExecFns;

verus! {

/// The character for the decimal digit `d`.
pub open spec fn digit(d: int) -> char {
    if d == 0 {
        '0'
    } else if d == 1 {
        '1'
    } else if d == 2 {
        '2'
    } else if d == 3 {
        '3'
    } else if d == 4 {
        '4'
    } else if d == 5 {
        '5'
    } else if d == 6 {
        '6'
    } else if d == 7 {
        '7'
    } else if d == 8 {
        '8'
    } else {
        '9'
    }
}

/// The decimal digits of `value`, most significant first, without leading zeros.
pub open spec fn digits(value: nat) -> Seq<char>
    decreases value,
{
    if value < 10 {
        seq![digit(value as int)]
    } else {
        digits(value / 10).push(digit((value % 10) as int))
    }
}

/// The decimal rendering of `value`.
pub open spec fn decimal(value: int) -> Seq<char> {
    if value < 0 {
        seq!['-'] + digits((-value) as nat)
    } else {
        digits(value as nat)
    }
}

/// The rendering of a row: the decimal renderings of its weights, joined by
/// single spaces.
pub open spec fn row_text(row: Seq<i32>) -> Seq<char>
    decreases row.len(),
{
    if row.len() == 0 {
        Seq::empty()
    } else if row.len() == 1 {
        decimal(row[0] as int)
    } else {
        row_text(row.drop_last()) + seq![' '] + decimal(row.last() as int)
    }
}

/// The renderings of the rows of `grid`, each followed by a line feed.
pub open spec fn rows_text(grid: Seq<Seq<i32>>) -> Seq<char>
    decreases grid.len(),
{
    if grid.len() == 0 {
        Seq::empty()
    } else {
        rows_text(grid.drop_last()) + row_text(grid.last()) + seq!['\n']
    }
}

/// The rendering of a matrix: that of its rows, or a fixed notice when it has none.
pub open spec fn matrix_text(grid: Seq<Seq<i32>>) -> Seq<char> {
    if grid.len() == 0 {
        "Matrix is empty!"@
    } else {
        rows_text(grid)
    }
}

/// The digits of `value`, or none at all when `value` is `0`: what is left
/// to write in front of the digits already taken from a number.
spec fn leading(value: nat) -> Seq<char> {
    if value == 0 {
        Seq::empty()
    } else {
        digits(value)
    }
}

/// The characters for the digits in `low`, last digit first.
spec fn backwards(low: Seq<u8>) -> Seq<char> {
    Seq::new(low.len(), |k: int| digit(low[low.len() - 1 - k] as int))
}

/// The text of one decimal digit.
fn digit_text(d: u8) -> (text: &'static str)
    requires
        d < 10,
    ensures
        text@ == seq![digit(d as int)],
{
    proof {
        reveal_strlit("0");
        reveal_strlit("1");
        reveal_strlit("2");
        reveal_strlit("3");
        reveal_strlit("4");
        reveal_strlit("5");
        reveal_strlit("6");
        reveal_strlit("7");
        reveal_strlit("8");
        reveal_strlit("9");
    }
    if d == 0 {
        "0"
    } else if d == 1 {
        "1"
    } else if d == 2 {
        "2"
    } else if d == 3 {
        "3"
    } else if d == 4 {
        "4"
    } else if d == 5 {
        "5"
    } else if d == 6 {
        "6"
    } else if d == 7 {
        "7"
    } else if d == 8 {
        "8"
    } else {
        "9"
    }
}

/// Appends the decimal rendering of `value` to `out`.
fn push_decimal(out: &mut String, value: i32)
    ensures
        final(out)@ == old(out)@ + decimal(value as int),
{
    let wide: i64 = value as i64;
    let size: u64 = if wide < 0 {
        proof {
            reveal_strlit("-");
        }
        out.append("-");
        (-wide) as u64
    } else {
        wide as u64
    };
    let ghost signed = out@;
    let mut low: Vec<u8> = Vec::new();
    low.push((size % 10) as u8);
    let mut rest: u64 = size / 10;
    while rest > 0
        invariant
            low@.len() >= 1,
            forall|k: int| 0 <= k < low@.len() ==> #[trigger] low@[k] < 10,
            digits(size as nat) == leading(rest as nat) + backwards(low@),
        decreases rest,
    {
        low.push((rest % 10) as u8);
        rest = rest / 10;
    }
    let mut left: usize = low.len();
    while left > 0
        invariant
            left <= low@.len(),
            forall|k: int| 0 <= k < low@.len() ==> #[trigger] low@[k] < 10,
            out@ == signed + backwards(low@).take(low@.len() - left),
        decreases left,
    {
        left -= 1;
        out.append(digit_text(low[left]));
    }
}

impl Row {
    /// Renders the row as text: its weights in decimal, with a single space
    /// between one weight and the next.
    pub fn to_text(&self) -> (text: String)
        ensures
            text@ == row_text(self@),
    {
        let mut text = String::new();
        let size = self.len();
        let mut j: usize = 0;
        while j < size
            invariant
                size == self@.len(),
                j <= size,
                text@ == row_text(self@.take(j as int)),
            decreases size - j,
        {
            if j > 0 {
                proof {
                    reveal_strlit(" ");
                }
                text.append(" ");
            }
            push_decimal(&mut text, self[j]);
            proof {
                let longer = self@.take(j + 1);
                assert(longer.drop_last() =~= self@.take(j as int));
            }
            j += 1;
        }
        assert(self@.take(j as int) =~= self@);
        text
    }
}

impl Matrix {
    /// Renders the matrix as text: one line for each row, or the notice
    /// `Matrix is empty!` when it has no rows.
    pub fn to_text(&self) -> (text: String)
        ensures
            text@ == matrix_text(self@),
    {
        if self.data.len() == 0 {
            return String::from_str("Matrix is empty!");
        }
        let mut text = String::new();
        let mut i: usize = 0;
        while i < self.data.len()
            invariant
                i <= self.data@.len(),
                self@.len() == self.data@.len(),
                text@ == rows_text(self@.take(i as int)),
            decreases self.data@.len() - i,
        {
            let line = self.data[i].to_text();
            text.append(line.as_str());
            proof {
                reveal_strlit("\n");
            }
            text.append("\n");
            proof {
                let longer = self@.take(i + 1);
                assert(longer.drop_last() =~= self@.take(i as int));
            }
            i += 1;
        }
        assert(self@.take(i as int) =~= self@);
        text
    }
}

} // verus!
