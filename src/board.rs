//! The text boundary: 81 digits in row-major order, `0` for an unknown cell.
use vstd::prelude::*;

use crate::cell::{lemma_top_single, shown_digit, top_digit, Cell};
use crate::grid::{Grid, GridError};
use crate::idx::GridIdx;
use crate::num::Num;
use crate::render::{
    band_line, bottom_line, cell_chars, picture, push_picture, repeat, row_line, rows_upto, top_line, triple,
};
use crate::text::{digit_char, digit_to_char, string_from_chars};
use crate::word::{digit_bit, known_flag, lemma_digit_bit, ALL_CANDIDATES};
use vstd::utf8::{encode_scalar, encode_utf8};

verus! {

broadcast use Grid::lemma_len, crate::idx::Idx::lemma_range;

/// A board as 81 digits in row-major order, each in `0..=9`, `0` for an unknown cell.
pub struct Board(pub(crate) [u8; 81]);

/// Board-related errors.
#[derive(Debug, Clone, Copy, PartialEq, Eq, Structural)]
pub enum BoardError {
    /// The text did not hold exactly 81 digits.
    FromStrError,
}

/// Whether `b` is the byte of an ASCII decimal digit.
pub open spec fn is_digit_byte(b: u8) -> bool {
    48 <= b <= 57
}

/// The values of the ASCII digits among `bytes`, in order; every other byte is skipped.
pub open spec fn digits_of(bytes: Seq<u8>) -> Seq<u8>
    decreases bytes.len(),
{
    if bytes.len() == 0 {
        seq![]
    } else if is_digit_byte(bytes.last()) {
        digits_of(bytes.drop_last()).push((bytes.last() - 48) as u8)
    } else {
        digits_of(bytes.drop_last())
    }
}

/// The word of the cell seeded from digit `d`: all candidates for `0`, else known `d`.
pub open spec fn seed_word(d: u8) -> u16 {
    if d == 0 {
        ALL_CANDIDATES
    } else {
        digit_bit(d as int) | 1
    }
}

/// The cell words seeded from the digits of a board.
pub open spec fn seed_words(digits: Seq<u8>) -> Seq<u16> {
    digits.map_values(|d: u8| seed_word(d))
}

/// The digit a board shows for a cell word: the value of a known cell, `0` otherwise.
pub open spec fn board_digit(w: u16) -> u8 {
    if known_flag(w) {
        shown_digit(w) as u8
    } else {
        0
    }
}

/// The text of a board's digits.
pub open spec fn board_text(digits: Seq<u8>) -> Seq<char> {
    digits.map_values(|d: u8| digit_char(d as int))
}

/// Reads the digits of `bytes`, skipping every other byte.
fn parse_digits(bytes: &[u8]) -> (r: Vec<u8>)
    ensures
        r@ == digits_of(bytes@),
        forall|i: int| 0 <= i < r@.len() ==> #[trigger] r@[i] <= 9,
{
    let mut digits: Vec<u8> = Vec::new();
    let mut i: usize = 0;
    while i < bytes.len()
        invariant
            i <= bytes@.len(),
            digits@ == digits_of(bytes@.subrange(0, i as int)),
            forall|k: int| 0 <= k < digits@.len() ==> #[trigger] digits@[k] <= 9,
        decreases bytes@.len() - i,
    {
        let b = bytes[i];
        proof {
            assert(bytes@.subrange(0, i as int + 1).drop_last() =~= bytes@.subrange(0, i as int));
        }
        if 48 <= b && b <= 57 {
            digits.push(b - 48);
        }
        i = i + 1;
    }
    proof {
        assert(bytes@.subrange(0, i as int) =~= bytes@);
    }
    digits
}

impl Board {
    /// The board's digits.
    pub closed spec fn view(self) -> Seq<u8> {
        self.0@.map_values(|d: u8| if d <= 9 { d } else { 0 })
    }

    #[verifier::type_invariant]
    spec fn digits_in_range(self) -> bool {
        forall|i: int| 0 <= i < 81 ==> #[trigger] self.0[i] <= 9
    }

    /// A board has 81 digits, each at most 9.
    pub broadcast proof fn lemma_digits(b: Board)
        ensures
            #[trigger] b@.len() == 81,
            forall|i: int| 0 <= i < 81 ==> #[trigger] b@[i] <= 9,
    {
    }

    /// Reads a board from text: its ASCII digits in order, every other character ignored.
    /// Fails unless there are exactly 81 of them.
    pub fn try_from(s: &str) -> (r: Result<Board, BoardError>)
        ensures
            r is Ok <==> digits_of(encode_utf8(s@)).len() == 81,
            r matches Ok(b) ==> b@ == digits_of(encode_utf8(s@)),
            r matches Err(e) ==> e == BoardError::FromStrError,
    {
        let digits = parse_digits(s.as_bytes());
        Board::from_digits(&digits)
    }

    /// The board of the given digits, if there are exactly 81 of them.
    fn from_digits(digits: &Vec<u8>) -> (r: Result<Board, BoardError>)
        requires
            forall|i: int| 0 <= i < digits@.len() ==> #[trigger] digits@[i] <= 9,
        ensures
            r is Ok <==> digits@.len() == 81,
            r matches Ok(b) ==> b@ == digits@,
            r matches Err(e) ==> e == BoardError::FromStrError,
    {
        if digits.len() != 81 {
            return Err(BoardError::FromStrError);
        }
        let mut cells = [0u8; 81];
        let mut i: usize = 0;
        while i < 81
            invariant
                i <= 81,
                digits@.len() == 81,
                forall|k: int| 0 <= k < 81 ==> #[trigger] digits@[k] <= 9,
                forall|k: int| 0 <= k < 81 ==> #[trigger] cells[k] <= 9,
                forall|k: int| 0 <= k < i ==> #[trigger] cells[k] == digits@[k],
            decreases 81 - i,
        {
            cells[i] = digits[i];
            i = i + 1;
        }
        let b = Board(cells);
        proof {
            assert(b@ =~= digits@);
        }
        Ok(b)
    }

    /// The board of 81 digits, each at most 9.
    pub(crate) fn from_array(cells: [u8; 81]) -> (r: Board)
        requires
            forall|i: int| 0 <= i < 81 ==> #[trigger] cells[i] <= 9,
        ensures
            r@ == cells@,
    {
        let r = Board(cells);
        proof {
            assert(r@ =~= cells@);
        }
        r
    }

    /// The digit at grid position `i`.
    pub fn get(&self, i: usize) -> (r: u8)
        requires
            i < 81,
        ensures
            r == self@[i as int],
            r <= 9,
    {
        proof {
            use_type_invariant(self);
        }
        self.0[i]
    }

    /// The board drawn in a frame: a row of text per grid row with its nine digits, and
    /// lines between the bands of boxes.
    pub fn framed(&self) -> (r: String)
        ensures
            r@ == picture(board_text(self@)),
    {
        let text = self.digit_chars();
        let mut out: Vec<char> = Vec::new();
        push_picture(&text, &mut out);
        proof {
            assert(out@ =~= picture(board_text(self@)));
        }
        string_from_chars(&out)
    }

    /// The characters of the 81 digits.
    fn digit_chars(&self) -> (r: Vec<char>)
        ensures
            r@ == board_text(self@),
            r@.len() == 81,
    {
        proof {
            use_type_invariant(self);
        }
        let mut chars: Vec<char> = Vec::new();
        let mut i: usize = 0;
        while i < 81
            invariant
                i <= 81,
                forall|k: int| 0 <= k < 81 ==> #[trigger] self.0[k] <= 9,
                chars@ == board_text(self@).subrange(0, i as int),
            decreases 81 - i,
        {
            let c = digit_to_char(self.0[i]);
            chars.push(c);
            proof {
                assert(chars@ =~= board_text(self@).subrange(0, i as int + 1));
            }
            i = i + 1;
        }
        proof {
            assert(board_text(self@).subrange(0, 81) =~= board_text(self@));
        }
        chars
    }

    /// The 81 digits as text, one character each.
    pub fn to_string(&self) -> (r: String)
        ensures
            r@ == board_text(self@),
    {
        let chars = self.digit_chars();
        string_from_chars(&chars)
    }
}

impl Grid {
    /// Seeds a grid from a board: a digit gives a known cell, `0` a cell with all nine
    /// candidates.
    pub fn from(board: Board) -> (r: Grid)
        ensures
            r@ == seed_words(board@),
    {
        let mut cells = [Cell::default(); 81];
        let mut i: usize = 0;
        while i < 81
            invariant
                i <= 81,
                forall|k: int| 0 <= k < i ==> #[trigger] cells[k]@ == seed_word(board@[k]),
            decreases 81 - i,
        {
            let d = board.get(i);
            if d != 0 {
                cells[i] = Cell::new_known(Num::new_unchecked(d));
            } else {
                cells[i] = Cell::default();
            }
            i = i + 1;
        }
        let r = Grid::from_cells(cells);
        proof {
            assert(r@ =~= seed_words(board@));
        }
        r
    }

    /// Reads a grid from text: its ASCII digits in order seed the cells, every other
    /// character is ignored. Fails unless there are exactly 81 digits.
    pub fn try_from(s: String) -> (r: Result<Grid, GridError>)
        ensures
            r is Ok <==> digits_of(encode_utf8(s@)).len() == 81,
            r matches Ok(g) ==> g@ == seed_words(digits_of(encode_utf8(s@))),
            r matches Err(e) ==> e == GridError::FromStringError,
    {
        match Board::try_from(s.as_str()) {
            Ok(board) => Ok(Grid::from(board)),
            Err(_) => Err(GridError::FromStringError),
        }
    }

    /// The board a grid shows: the value of each known cell, `0` for the others.
    pub fn to_board(&self) -> (r: Board)
        ensures
            r@ == self@.map_values(|w: u16| board_digit(w)),
    {
        let mut cells = [0u8; 81];
        let mut i: usize = 0;
        while i < 81
            invariant
                i <= 81,
                forall|k: int| 0 <= k < 81 ==> #[trigger] cells[k] <= 9,
                forall|k: int| 0 <= k < i ==> #[trigger] cells[k] == board_digit(self@[k]),
            decreases 81 - i,
        {
            let c = self.get_cell(GridIdx::new_unchecked(i));
            if c.is_known() {
                cells[i] = top_digit(c.to_u16());
            } else {
                cells[i] = 0;
            }
            i = i + 1;
        }
        let r = Board(cells);
        proof {
            assert(r@ =~= self@.map_values(|w: u16| board_digit(w)));
        }
        r
    }
}

/// When every byte is a digit, the digits are the bytes' values.
proof fn lemma_all_digits(bytes: Seq<u8>)
    requires
        forall|i: int| 0 <= i < bytes.len() ==> is_digit_byte(#[trigger] bytes[i]),
    ensures
        digits_of(bytes) == bytes.map_values(|b: u8| (b - 48) as u8),
    decreases bytes.len(),
{
    if bytes.len() > 0 {
        lemma_all_digits(bytes.drop_last());
        assert(digits_of(bytes) =~= bytes.map_values(|b: u8| (b - 48) as u8));
    } else {
        assert(digits_of(bytes) =~= bytes.map_values(|b: u8| (b - 48) as u8));
    }
}

/// The UTF-8 bytes of a board's text are the ASCII bytes of its digits.
proof fn lemma_encode_text(ds: Seq<u8>)
    requires
        forall|i: int| 0 <= i < ds.len() ==> #[trigger] ds[i] <= 9,
    ensures
        encode_utf8(board_text(ds)) == ds.map_values(|d: u8| (d + 48) as u8),
    decreases ds.len(),
{
    if ds.len() > 0 {
        let rest = ds.drop_first();
        lemma_encode_text(rest);
        assert(board_text(ds).drop_first() =~= board_text(rest));
        let c = board_text(ds)[0];
        assert(c == digit_char(ds[0] as int));
        let u = c as u32;
        assert(u == ds[0] + 48);
        lemma_ascii_byte(u);
        assert(encode_scalar(u) == seq![(ds[0] + 48) as u8]);
        assert(encode_utf8(board_text(ds)) == encode_scalar(u) + encode_utf8(board_text(ds).drop_first()));
        assert(ds.map_values(|d: u8| (d + 48) as u8) =~= seq![(ds[0] + 48) as u8] + rest.map_values(|d: u8| (d + 48) as u8));
    } else {
        assert(ds.map_values(|d: u8| (d + 48) as u8) =~= seq![]);
    }
}

proof fn lemma_ascii_byte(u: u32)
    by (bit_vector)
    requires
        u <= 0x7f,
    ensures
        (u & 0x7f) as u8 == u as u8,
{
}

/// Printing a board and reading the text back gives the same board: the text of its 81
/// digits has exactly those digits.
pub proof fn lemma_board_text_round_trip(b: Board)
    ensures
        digits_of(encode_utf8(board_text(b@))) == b@,
{
    lemma_text_digits(b@);
}

/// The text of digits reads back as those digits.
proof fn lemma_text_digits(ds: Seq<u8>)
    requires
        forall|i: int| 0 <= i < ds.len() ==> #[trigger] ds[i] <= 9,
    ensures
        digits_of(encode_utf8(board_text(ds))) == ds,
{
    lemma_encode_text(ds);
    let bytes = ds.map_values(|d: u8| (d + 48) as u8);
    lemma_all_digits(bytes);
    assert(bytes.map_values(|x: u8| (x - 48) as u8) =~= ds);
}

/// Reading the text of a solved board into a grid, drawing the grid and reading the
/// picture back gives the same 81 digits.
pub proof fn lemma_solved_picture_round_trip(bytes: Seq<u8>)
    requires
        bytes.len() == 81,
        forall|i: int| 0 <= i < 81 ==> 49 <= #[trigger] bytes[i] <= 57,
    ensures
        digits_of(encode_utf8(picture(cell_chars(seed_words(digits_of(bytes)))) + seq!['\n'])) == digits_of(bytes),
{
    lemma_all_digits(bytes);
    let ds = digits_of(bytes);
    assert forall|i: int| 0 <= i < 81 implies #[trigger] cell_chars(seed_words(ds))[i] == board_text(ds)[i] by {
        let d = ds[i];
        assert(d == (bytes[i] - 48) as u8);
        lemma_digit_bit(d as int);
        lemma_top_single(digit_bit(d as int) | 1, d as int, 10);
    }
    assert(cell_chars(seed_words(ds)) =~= board_text(ds));
    lemma_picture_digits(board_text(ds));
    lemma_text_digits(ds);
}

/// The values of the ASCII digit characters among `cs`, in order.
pub open spec fn char_digits(cs: Seq<char>) -> Seq<u8>
    decreases cs.len(),
{
    if cs.len() == 0 {
        seq![]
    } else {
        (if 48 <= (cs[0] as u32) <= 57 {
            seq![((cs[0] as u32) - 48) as u8]
        } else {
            seq![]
        }) + char_digits(cs.drop_first())
    }
}

proof fn lemma_high_byte(y: u8)
    by (bit_vector)
    ensures
        (0x80u8 | y) >= 0x80,
        (0xc0u8 | y) >= 0x80,
        (0xe0u8 | y) >= 0x80,
        (0xf0u8 | y) >= 0x80,
{
}

/// Reading digits from a concatenation reads each part in turn.
proof fn lemma_digits_concat(x: Seq<u8>, y: Seq<u8>)
    ensures
        digits_of(x + y) == digits_of(x) + digits_of(y),
    decreases y.len(),
{
    if y.len() == 0 {
        assert(x + y =~= x);
        assert(digits_of(x) + digits_of(y) =~= digits_of(x));
    } else {
        lemma_digits_concat(x, y.drop_last());
        assert((x + y).drop_last() =~= x + y.drop_last());
        assert((x + y).last() == y.last());
        if is_digit_byte(y.last()) {
            assert(digits_of(x) + digits_of(y) =~= (digits_of(x) + digits_of(y.drop_last())).push((y.last() - 48) as u8));
        }
    }
}

/// The digit characters of a concatenation are those of each part in turn.
proof fn lemma_char_digits_concat(x: Seq<char>, y: Seq<char>)
    ensures
        char_digits(x + y) == char_digits(x) + char_digits(y),
    decreases x.len(),
{
    if x.len() == 0 {
        assert(x + y =~= y);
        assert(char_digits(x) + char_digits(y) =~= char_digits(y));
    } else {
        lemma_char_digits_concat(x.drop_first(), y);
        assert((x + y).drop_first() =~= x.drop_first() + y);
        assert((x + y)[0] == x[0]);
        let head = if 48 <= (x[0] as u32) <= 57 { seq![((x[0] as u32) - 48) as u8] } else { seq![] };
        assert(head + (char_digits(x.drop_first()) + char_digits(y)) =~= (head + char_digits(x.drop_first())) + char_digits(y));
    }
}

/// Reading the digits of a UTF-8 encoding finds the digit characters.
proof fn lemma_encoded_digits(cs: Seq<char>)
    ensures
        digits_of(encode_utf8(cs)) == char_digits(cs),
    decreases cs.len(),
{
    if cs.len() > 0 {
        lemma_encoded_digits(cs.drop_first());
        let u = cs[0] as u32;
        let e = encode_scalar(u);
        lemma_digits_concat(e, encode_utf8(cs.drop_first()));
        if u <= 0x7f {
            lemma_ascii_byte(u);
            assert(e == seq![u as u8]);
            reveal_with_fuel(digits_of, 2);
            assert(seq![u as u8].drop_last() =~= Seq::<u8>::empty());
        } else {
            assert forall|i: int| 0 <= i < e.len() implies #[trigger] e[i] >= 0x80 by {
                lemma_high_byte(((u >> 6) & 0x1f) as u8);
                lemma_high_byte(((u >> 12) & 0x0f) as u8);
                lemma_high_byte(((u >> 18) & 0x7) as u8);
                lemma_high_byte((u & 0x3f) as u8);
                lemma_high_byte(((u >> 6) & 0x3f) as u8);
                lemma_high_byte(((u >> 12) & 0x3f) as u8);
            }
            lemma_no_digit_bytes(e);
        }
    }
}

/// Bytes of 0x80 and above hold no digit.
proof fn lemma_no_digit_bytes(e: Seq<u8>)
    requires
        forall|i: int| 0 <= i < e.len() ==> #[trigger] e[i] >= 0x80,
    ensures
        digits_of(e) == Seq::<u8>::empty(),
    decreases e.len(),
{
    if e.len() > 0 {
        lemma_no_digit_bytes(e.drop_last());
    }
}

/// A run of one non-digit character holds no digit.
proof fn lemma_repeat_no_digits(c: char, n: nat)
    requires
        !(48 <= (c as u32) <= 57),
    ensures
        char_digits(repeat(c, n)) == Seq::<u8>::empty(),
    decreases n,
{
    if n > 0 {
        lemma_repeat_no_digits(c, (n - 1) as nat);
        assert(repeat(c, n).drop_first() =~= repeat(c, (n - 1) as nat));
    }
}

/// The digits of three cells with spaces between are those of the three cells.
proof fn lemma_triple_digits(cs: Seq<char>, q: int)
    requires
        0 <= q,
        q + 3 <= cs.len(),
    ensures
        char_digits(triple(cs, q)) == char_digits(cs.subrange(q, q + 3)),
{
    let t = triple(cs, q);
    let sub = cs.subrange(q, q + 3);
    let sp = seq![' '];
    reveal_with_fuel(char_digits, 2);
    assert(char_digits(sp) == Seq::<u8>::empty());
    assert(t =~= seq![cs[q]] + sp + seq![cs[q + 1]] + sp + seq![cs[q + 2]] + sp);
    assert(sub =~= seq![cs[q]] + seq![cs[q + 1]] + seq![cs[q + 2]]);
    let (a, b, c) = (seq![cs[q]], seq![cs[q + 1]], seq![cs[q + 2]]);
    lemma_char_digits_concat(a, sp);
    lemma_char_digits_concat(a + sp, b);
    lemma_char_digits_concat(a + sp + b, sp);
    lemma_char_digits_concat(a + sp + b + sp, c);
    lemma_char_digits_concat(a + sp + b + sp + c, sp);
    lemma_char_digits_concat(a, b);
    lemma_char_digits_concat(a + b, c);
    let e = Seq::<u8>::empty();
    assert(char_digits(a) + e + char_digits(b) + e + char_digits(c) + e =~= char_digits(a) + char_digits(b) + char_digits(c));
}

/// The digits of one row line are those of the row's nine cells.
proof fn lemma_row_digits(cs: Seq<char>, r: int)
    requires
        cs.len() == 81,
        0 <= r < 9,
    ensures
        char_digits(row_line(cs, r)) == char_digits(cs.subrange(9 * r, 9 * r + 9)),
{
    let bar = seq!['│', ' '];
    let end = seq!['│', '\n'];
    lemma_small_no_digits();
    let p = 9 * r;
    let t0 = triple(cs, p);
    let t1 = triple(cs, p + 3);
    let t2 = triple(cs, p + 6);
    lemma_triple_digits(cs, p);
    lemma_triple_digits(cs, p + 3);
    lemma_triple_digits(cs, p + 6);
    lemma_char_digits_concat(bar, t0);
    lemma_char_digits_concat(bar + t0, bar);
    lemma_char_digits_concat(bar + t0 + bar, t1);
    lemma_char_digits_concat(bar + t0 + bar + t1, bar);
    lemma_char_digits_concat(bar + t0 + bar + t1 + bar, t2);
    lemma_char_digits_concat(bar + t0 + bar + t1 + bar + t2, end);
    let (s0, s1, s2) = (cs.subrange(p, p + 3), cs.subrange(p + 3, p + 6), cs.subrange(p + 6, p + 9));
    lemma_char_digits_concat(s0, s1);
    lemma_char_digits_concat(s0 + s1, s2);
    assert(s0 + s1 + s2 =~= cs.subrange(p, p + 9));
    let e = Seq::<u8>::empty();
    assert(e + char_digits(s0) + e + char_digits(s1) + e + char_digits(s2) + e =~= char_digits(s0) + char_digits(s1) + char_digits(s2));
}

/// Short runs of frame characters hold no digit.
proof fn lemma_small_no_digits()
    ensures
        char_digits(seq!['│', ' ']) == Seq::<u8>::empty(),
        char_digits(seq!['│', '\n']) == Seq::<u8>::empty(),
        char_digits(seq!['┐', '\n']) == Seq::<u8>::empty(),
        char_digits(seq![' ', '│', '\n']) == Seq::<u8>::empty(),
        char_digits(seq!['┌']) == Seq::<u8>::empty(),
        char_digits(seq!['└']) == Seq::<u8>::empty(),
        char_digits(seq!['┘']) == Seq::<u8>::empty(),
        char_digits(seq!['┼']) == Seq::<u8>::empty(),
        char_digits(seq!['\n']) == Seq::<u8>::empty(),
{
    reveal_with_fuel(char_digits, 4);
    assert(seq!['│', ' '].drop_first().drop_first() =~= Seq::<char>::empty());
    assert(seq!['│', '\n'].drop_first().drop_first() =~= Seq::<char>::empty());
    assert(seq!['┐', '\n'].drop_first().drop_first() =~= Seq::<char>::empty());
    assert(seq![' ', '│', '\n'].drop_first().drop_first().drop_first() =~= Seq::<char>::empty());
    assert(seq!['┌'].drop_first() =~= Seq::<char>::empty());
    assert(seq!['└'].drop_first() =~= Seq::<char>::empty());
    assert(seq!['┘'].drop_first() =~= Seq::<char>::empty());
    assert(seq!['┼'].drop_first() =~= Seq::<char>::empty());
    assert(seq!['\n'].drop_first() =~= Seq::<char>::empty());
}

/// The frame lines hold no digit.
proof fn lemma_frame_no_digits()
    ensures
        char_digits(top_line()) == Seq::<u8>::empty(),
        char_digits(bottom_line()) == Seq::<u8>::empty(),
        char_digits(band_line()) == Seq::<u8>::empty(),
{
    lemma_small_no_digits();
    lemma_repeat_no_digits('─', 23);
    lemma_repeat_no_digits('─', 6);
    lemma_repeat_no_digits('─', 7);
    let e = Seq::<u8>::empty();
    lemma_char_digits_concat(seq!['┌'], repeat('─', 23));
    lemma_char_digits_concat(seq!['┌'] + repeat('─', 23), seq!['┐', '\n']);
    lemma_char_digits_concat(seq!['└'], repeat('─', 23));
    lemma_char_digits_concat(seq!['└'] + repeat('─', 23), seq!['┘']);
    let b1 = seq!['│', ' '] + repeat('─', 6);
    lemma_char_digits_concat(seq!['│', ' '], repeat('─', 6));
    lemma_char_digits_concat(b1, seq!['┼']);
    lemma_char_digits_concat(b1 + seq!['┼'], repeat('─', 7));
    lemma_char_digits_concat(b1 + seq!['┼'] + repeat('─', 7), seq!['┼']);
    lemma_char_digits_concat(b1 + seq!['┼'] + repeat('─', 7) + seq!['┼'], repeat('─', 6));
    lemma_char_digits_concat(b1 + seq!['┼'] + repeat('─', 7) + seq!['┼'] + repeat('─', 6), seq![' ', '│', '\n']);
    assert(e + e =~= e);
}

/// The digits of the first `k` rows of a picture are those of the first `9 * k` cells.
proof fn lemma_rows_digits(cs: Seq<char>, k: int)
    requires
        cs.len() == 81,
        0 <= k <= 9,
    ensures
        char_digits(rows_upto(cs, k)) == char_digits(cs.subrange(0, 9 * k)),
    decreases k,
{
    if k == 0 {
        assert(cs.subrange(0, 0) =~= Seq::<char>::empty());
    } else {
        lemma_rows_digits(cs, k - 1);
        lemma_row_digits(cs, k - 1);
        lemma_frame_no_digits();
        let prev = rows_upto(cs, k - 1);
        if k == 4 || k == 7 {
            lemma_char_digits_concat(prev, band_line());
            lemma_char_digits_concat(prev + band_line(), row_line(cs, k - 1));
            assert(char_digits(prev) + Seq::<u8>::empty() =~= char_digits(prev));
        } else {
            lemma_char_digits_concat(prev, row_line(cs, k - 1));
        }
        lemma_char_digits_concat(cs.subrange(0, 9 * (k - 1)), cs.subrange(9 * (k - 1), 9 * k));
        assert(cs.subrange(0, 9 * (k - 1)) + cs.subrange(9 * (k - 1), 9 * k) =~= cs.subrange(0, 9 * k));
    }
}

/// Reading a framed picture back finds exactly the digits among its 81 cell characters:
/// the frame adds none and drops none.
pub proof fn lemma_picture_digits(cs: Seq<char>)
    requires
        cs.len() == 81,
    ensures
        digits_of(encode_utf8(picture(cs))) == digits_of(encode_utf8(cs)),
        digits_of(encode_utf8(picture(cs) + seq!['\n'])) == digits_of(encode_utf8(cs)),
{
    lemma_encoded_digits(picture(cs));
    lemma_encoded_digits(picture(cs) + seq!['\n']);
    lemma_encoded_digits(cs);
    lemma_frame_no_digits();
    lemma_rows_digits(cs, 9);
    assert(cs.subrange(0, 81) =~= cs);
    lemma_char_digits_concat(top_line(), rows_upto(cs, 9));
    lemma_char_digits_concat(top_line() + rows_upto(cs, 9), bottom_line());
    lemma_char_digits_concat(picture(cs), seq!['\n']);
    lemma_small_no_digits();
    let e = Seq::<u8>::empty();
    assert(e + char_digits(cs) + e =~= char_digits(cs));
    assert(char_digits(cs) + e =~= char_digits(cs));
}

/// Reading a board's framed picture back gives the board.
pub proof fn lemma_framed_round_trip(b: Board)
    ensures
        digits_of(encode_utf8(picture(board_text(b@)))) == b@,
{
    lemma_picture_digits(board_text(b@));
    lemma_board_text_round_trip(b);
}

/// Reading the text of a solved board (81 digits from `1` to `9`) into a grid, taking the
/// grid's board and printing it gives the same text back.
pub proof fn lemma_solved_round_trip(bytes: Seq<u8>)
    requires
        bytes.len() == 81,
        forall|i: int| 0 <= i < 81 ==> 49 <= #[trigger] bytes[i] <= 57,
    ensures
        board_text(seed_words(digits_of(bytes)).map_values(|w: u16| board_digit(w))) == bytes.map_values(|b: u8| b as char),
{
    lemma_all_digits(bytes);
    let out = board_text(seed_words(digits_of(bytes)).map_values(|w: u16| board_digit(w)));
    assert forall|i: int| 0 <= i < 81 implies #[trigger] out[i] == bytes[i] as char by {
        let d = (bytes[i] - 48) as u8;
        assert(digits_of(bytes)[i] == d);
        let w = digit_bit(d as int) | 1;
        lemma_digit_bit(d as int);
        lemma_top_single(w, d as int, 10);
        assert(board_digit(w) == d);
    }
    assert(out =~= bytes.map_values(|b: u8| b as char));
}

impl From<Cell> for char {
    /// A known cell gives its digit, an unknown cell a space.
    fn from(cell: Cell) -> (r: char) {
        if cell.is_known() {
            digit_to_char(top_digit(cell.to_u16()))
        } else {
            ' '
        }
    }
}

impl vstd::std_specs::convert::FromSpecImpl<Cell> for char {
    open spec fn obeys_from_spec() -> bool {
        true
    }

    open spec fn from_spec(cell: Cell) -> char {
        if known_flag(cell@) {
            digit_char(shown_digit(cell@))
        } else {
            ' '
        }
    }
}

impl From<Cell> for u8 {
    /// A known cell gives the ASCII byte of its digit, an unknown cell a space.
    fn from(cell: Cell) -> (r: u8) {
        if cell.is_known() {
            top_digit(cell.to_u16()) + 48
        } else {
            32
        }
    }
}

impl vstd::std_specs::convert::FromSpecImpl<Cell> for u8 {
    open spec fn obeys_from_spec() -> bool {
        true
    }

    open spec fn from_spec(cell: Cell) -> u8 {
        if known_flag(cell@) {
            (shown_digit(cell@) + 48) as u8
        } else {
            32
        }
    }
}

} // verus!
