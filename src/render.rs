//! Drawing a grid as a framed 9x9 picture.
use vstd::prelude::*;

use crate::cell::{shown_digit, top_digit};
use crate::grid::Grid;
use crate::idx::{GridIdx, Idx};
use crate::text::{digit_char, digit_to_char, string_from_chars};
use crate::word::known_flag;

verus! {

broadcast use Grid::lemma_len, Idx::lemma_range;

/// The character a cell is drawn with: its digit when known, a space otherwise.
pub open spec fn cell_char(w: u16) -> char {
    if known_flag(w) {
        digit_char(shown_digit(w))
    } else {
        ' '
    }
}

/// `n` copies of `c`.
pub open spec fn repeat(c: char, n: nat) -> Seq<char> {
    Seq::new(n, |i: int| c)
}

/// The characters a board's cells are drawn with.
pub open spec fn cell_chars(g: Seq<u16>) -> Seq<char> {
    g.map_values(|w: u16| cell_char(w))
}

/// Three cells of a row with a space after each.
pub open spec fn triple(g: Seq<char>, p: int) -> Seq<char> {
    seq![g[p], ' ', g[p + 1], ' ', g[p + 2], ' ']
}

/// The line drawing row `r`: three groups of three cells between bars.
pub open spec fn row_line(g: Seq<char>, r: int) -> Seq<char> {
    seq!['│', ' '] + triple(g, 9 * r) + seq!['│', ' '] + triple(g, 9 * r + 3) + seq!['│', ' ']
        + triple(g, 9 * r + 6) + seq!['│', '\n']
}

/// The line between bands of rows.
pub open spec fn band_line() -> Seq<char> {
    seq!['│', ' '] + repeat('─', 6) + seq!['┼'] + repeat('─', 7) + seq!['┼'] + repeat('─', 6) + seq![' ', '│', '\n']
}

/// The top border.
pub open spec fn top_line() -> Seq<char> {
    seq!['┌'] + repeat('─', 23) + seq!['┐', '\n']
}

/// The bottom border, without a line break.
pub open spec fn bottom_line() -> Seq<char> {
    seq!['└'] + repeat('─', 23) + seq!['┘']
}

/// The first `k` rows of the picture of `g`, band lines included.
pub open spec fn rows_upto(g: Seq<char>, k: int) -> Seq<char>
    decreases k,
{
    if k <= 0 {
        seq![]
    } else if k == 4 || k == 7 {
        rows_upto(g, k - 1) + band_line() + row_line(g, k - 1)
    } else {
        rows_upto(g, k - 1) + row_line(g, k - 1)
    }
}

/// The whole picture of the 81 cell characters `g`.
pub open spec fn picture(g: Seq<char>) -> Seq<char> {
    top_line() + rows_upto(g, 9) + bottom_line()
}

fn push_chars(out: &mut Vec<char>, c: char, n: usize)
    ensures
        final(out)@ == old(out)@ + repeat(c, n as nat),
{
    let mut i: usize = 0;
    while i < n
        invariant
            i <= n,
            out@ == old(out)@ + repeat(c, i as nat),
        decreases n - i,
    {
        out.push(c);
        i = i + 1;
        proof {
            assert(out@ =~= old(out)@ + repeat(c, i as nat));
        }
    }
}

fn push_row(cells: &Vec<char>, out: &mut Vec<char>, r: usize)
    requires
        r < 9,
        cells@.len() == 81,
    ensures
        final(out)@ == old(out)@ + row_line(cells@, r as int),
{
    let ghost start = old(out)@;
    let p = 9 * r;
    out.push('│');
    out.push(' ');
    let mut k: usize = 0;
    while k < 9
        invariant
            k <= 9,
            p == 9 * r,
            r < 9,
            cells@.len() == 81,
            k % 3 == 0,
            k == 0 ==> out@ == start + seq!['│', ' '],
            k == 3 ==> out@ == start + seq!['│', ' '] + triple(cells@, 9 * r as int),
            k == 6 ==> out@ == start + seq!['│', ' '] + triple(cells@, 9 * r as int) + seq!['│', ' ']
                + triple(cells@, 9 * r as int + 3),
            k == 9 ==> out@ == start + seq!['│', ' '] + triple(cells@, 9 * r as int) + seq!['│', ' ']
                + triple(cells@, 9 * r as int + 3) + seq!['│', ' '] + triple(cells@, 9 * r as int + 6),
        decreases 9 - k,
    {
        let ghost before = out@;
        if k > 0 {
            out.push('│');
            out.push(' ');
        }
        let ghost mid = out@;
        out.push(cells[p + k]);
        out.push(' ');
        out.push(cells[p + k + 1]);
        out.push(' ');
        out.push(cells[p + k + 2]);
        out.push(' ');
        proof {
            assert(out@ =~= mid + triple(cells@, (p + k) as int));
            if k > 0 {
                assert(mid =~= before + seq!['│', ' ']);
            }
        }
        k = k + 3;
    }
    out.push('│');
    out.push('\n');
    proof {
        assert(out@ =~= start + row_line(cells@, r as int));
    }
}

/// Appends the framed picture of the 81 cell characters.
pub(crate) fn push_picture(cells: &Vec<char>, out: &mut Vec<char>)
    requires
        cells@.len() == 81,
    ensures
        final(out)@ == old(out)@ + picture(cells@),
{
    let ghost start = old(out)@;
    out.push('┌');
    push_chars(out, '─', 23);
    out.push('┐');
    out.push('\n');
    proof {
        assert(out@ =~= start + top_line());
        assert(rows_upto(cells@, 0) =~= seq![]);
    }
    let mut r: usize = 0;
    while r < 9
        invariant
            r <= 9,
            cells@.len() == 81,
            out@ == start + top_line() + rows_upto(cells@, r as int),
        decreases 9 - r,
    {
        let ghost before = out@;
        if r == 3 || r == 6 {
            out.push('│');
            out.push(' ');
            push_chars(out, '─', 6);
            out.push('┼');
            push_chars(out, '─', 7);
            out.push('┼');
            push_chars(out, '─', 6);
            out.push(' ');
            out.push('│');
            out.push('\n');
            proof {
                assert(out@ =~= before + band_line());
            }
        }
        let ghost mid = out@;
        push_row(cells, out, r);
        proof {
            if r == 3 || r == 6 {
                assert(out@ =~= start + top_line() + rows_upto(cells@, r as int + 1));
            } else {
                assert(mid == before);
                assert(out@ =~= start + top_line() + rows_upto(cells@, r as int + 1));
            }
        }
        r = r + 1;
    }
    let ghost before = out@;
    out.push('└');
    push_chars(out, '─', 23);
    out.push('┘');
    proof {
        assert(out@ =~= before + bottom_line());
        assert(out@ =~= start + picture(cells@));
    }
}

impl Grid {
    /// The grid drawn in a frame, ending with a line break: a row of text per grid row,
    /// known cells as digits and unknown cells as spaces, with lines between the bands of
    /// boxes.
    pub fn to_string(&self) -> (r: String)
        ensures
            r@ == picture(cell_chars(self@)) + seq!['\n'],
    {
        let mut cells: Vec<char> = Vec::new();
        let mut p: usize = 0;
        while p < 81
            invariant
                p <= 81,
                cells@ == cell_chars(self@).subrange(0, p as int),
            decreases 81 - p,
        {
            let c = self.get_cell(GridIdx::new_unchecked(p));
            let ch = if c.is_known() {
                digit_to_char(top_digit(c.to_u16()))
            } else {
                ' '
            };
            cells.push(ch);
            proof {
                assert(cells@ =~= cell_chars(self@).subrange(0, p as int + 1));
            }
            p = p + 1;
        }
        proof {
            assert(cells@ =~= cell_chars(self@));
        }
        let mut out: Vec<char> = Vec::new();
        push_picture(&cells, &mut out);
        out.push('\n');
        proof {
            assert(out@ =~= picture(cell_chars(self@)) + seq!['\n']);
        }
        string_from_chars(&out)
    }
}

} // verus!
