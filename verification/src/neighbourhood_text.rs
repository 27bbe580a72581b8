//! The text form of a cell's place, and of a region drawn as a picture.

use vstd::prelude::*;
use vstd::string::StringExecFns;
use vstd::utf8::encode_utf8;
use vstd::utf8::{is_ascii_chars, is_ascii_chars_encode_utf8};
use crate::decimal::{
    all_digits,
    ascii_bytes,
    decimal,
    lemma_decimal_is_ascii,
    lemma_decimal_round_trip,
    push_decimal,
    read_digits,
    scan_digits,
};
use crate::grid_text::find_byte;
use crate::model::GridView;
use crate::neighbourhood::{has_offset, is_max_with_zero, is_min_with_zero, Neighbourhood};
use crate::panel::{Panel, PanelLoc};
use crate::symbol::Symbol;

verus! {

/// Why a text names no cell.
#[derive(Clone, Copy, Debug, PartialEq, Eq, Structural)]
pub enum PanelLocParseError {
    /// The text is not a run of digits followed by one capital letter.
    Illformed,
    /// The column is zero or too large a number.
    CouldntParseWidth,
}

/// The capital letter of a row: `A` for the first, up to `Z`.
pub open spec fn row_letter(y: int) -> char {
    if y == 0 {
        'A'
    } else if y == 1 {
        'B'
    } else if y == 2 {
        'C'
    } else if y == 3 {
        'D'
    } else if y == 4 {
        'E'
    } else if y == 5 {
        'F'
    } else if y == 6 {
        'G'
    } else if y == 7 {
        'H'
    } else if y == 8 {
        'I'
    } else if y == 9 {
        'J'
    } else if y == 10 {
        'K'
    } else if y == 11 {
        'L'
    } else if y == 12 {
        'M'
    } else if y == 13 {
        'N'
    } else if y == 14 {
        'O'
    } else if y == 15 {
        'P'
    } else if y == 16 {
        'Q'
    } else if y == 17 {
        'R'
    } else if y == 18 {
        'S'
    } else if y == 19 {
        'T'
    } else if y == 20 {
        'U'
    } else if y == 21 {
        'V'
    } else if y == 22 {
        'W'
    } else if y == 23 {
        'X'
    } else if y == 24 {
        'Y'
    } else {
        'Z'
    }
}

/// The text of a place: the column, counted from one, and the letter of the row.
pub open spec fn loc_text(loc: PanelLoc) -> Seq<char> {
    decimal((loc.x + 1) as nat).push(row_letter(loc.y as int))
}

/// The place that the bytes name: a run of digits for the column, counted from one, and
/// one capital letter for the row.
pub open spec fn parse_loc(bytes: Seq<u8>) -> Result<PanelLoc, PanelLocParseError> {
    let digits = bytes.drop_last();
    if bytes.len() >= 2 && all_digits(digits) && 65 <= bytes.last() <= 90 {
        match read_digits(digits, usize::MAX as nat) {
            Some(n) => if n >= 1 {
                Ok(PanelLoc { x: (n - 1) as usize, y: (bytes.last() - 65) as usize })
            } else {
                Err(PanelLocParseError::CouldntParseWidth)
            },
            None => Err(PanelLocParseError::CouldntParseWidth),
        }
    } else {
        Err(PanelLocParseError::Illformed)
    }
}

/// The text of a place whose row has a letter reads back as the place.
pub proof fn lemma_loc_round_trip(loc: PanelLoc)
    requires
        loc.x < usize::MAX,
        loc.y < 26,
    ensures
        is_ascii_chars(loc_text(loc)),
        parse_loc(encode_utf8(loc_text(loc))) == Ok::<PanelLoc, PanelLocParseError>(loc),
{
    let number = decimal((loc.x + 1) as nat);
    let text = loc_text(loc);
    let bytes = ascii_bytes(text);
    lemma_decimal_round_trip((loc.x + 1) as nat);
    lemma_decimal_is_ascii((loc.x + 1) as nat);
    assert(text.last() == row_letter(loc.y as int));
    assert(bytes.last() == 65 + loc.y);
    assert(bytes.drop_last() =~= ascii_bytes(number));
    assert forall|i: int| 0 <= i < text.len() implies '\0' <= #[trigger] text[i] <= '\u{7f}' by {
        if i < number.len() {
            assert(text[i] == number[i]);
        }
    }
    is_ascii_chars_encode_utf8(text);
    assert(encode_utf8(text) =~= bytes);
}

/// The text of a row letter.
fn letter_text(y: usize) -> (text: &'static str)
    requires
        y < 26,
    ensures
        text@ == seq![row_letter(y as int)],
{
    proof {
        reveal_strlit("A");
        reveal_strlit("B");
        reveal_strlit("C");
        reveal_strlit("D");
        reveal_strlit("E");
        reveal_strlit("F");
        reveal_strlit("G");
        reveal_strlit("H");
        reveal_strlit("I");
        reveal_strlit("J");
        reveal_strlit("K");
        reveal_strlit("L");
        reveal_strlit("M");
        reveal_strlit("N");
        reveal_strlit("O");
        reveal_strlit("P");
        reveal_strlit("Q");
        reveal_strlit("R");
        reveal_strlit("S");
        reveal_strlit("T");
        reveal_strlit("U");
        reveal_strlit("V");
        reveal_strlit("W");
        reveal_strlit("X");
        reveal_strlit("Y");
        reveal_strlit("Z");
    }
    let text = match y {
        0 => "A",
        1 => "B",
        2 => "C",
        3 => "D",
        4 => "E",
        5 => "F",
        6 => "G",
        7 => "H",
        8 => "I",
        9 => "J",
        10 => "K",
        11 => "L",
        12 => "M",
        13 => "N",
        14 => "O",
        15 => "P",
        16 => "Q",
        17 => "R",
        18 => "S",
        19 => "T",
        20 => "U",
        21 => "V",
        22 => "W",
        23 => "X",
        24 => "Y",
        _ => "Z",
    };
    assert(text@ =~= seq![row_letter(y as int)]);
    text
}

/// Whether `bytes[start..end]` are all digits.
fn digits_only(bytes: &[u8], start: usize, end: usize) -> (r: bool)
    requires
        start <= end <= bytes@.len(),
    ensures
        r == all_digits(bytes@.subrange(start as int, end as int)),
{
    let ghost run = bytes@.subrange(start as int, end as int);
    let mut i: usize = start;
    while i < end
        invariant
            start <= i <= end <= bytes@.len(),
            run == bytes@.subrange(start as int, end as int),
            forall|k: int| 0 <= k < i - start ==> crate::decimal::is_digit(#[trigger] run[k]),
        decreases end - i,
    {
        let b = bytes[i];
        proof {
            assert(run[i - start] == b);
        }
        if b < 48 || b > 57 {
            return false;
        }
        i += 1;
    }
    true
}

impl PanelLoc {
    /// Reads a place from `bytes[start..end]`.
    pub fn parse(bytes: &[u8], start: usize, end: usize) -> (r: Result<
        PanelLoc,
        PanelLocParseError,
    >)
        requires
            start <= end <= bytes@.len(),
        ensures
            r == parse_loc(bytes@.subrange(start as int, end as int)),
    {
        let ghost run = bytes@.subrange(start as int, end as int);
        if end - start < 2 {
            return Err(PanelLocParseError::Illformed);
        }
        let letter = bytes[end - 1];
        proof {
            assert(run.last() == letter);
            assert(run.drop_last() =~= bytes@.subrange(start as int, end - 1));
        }
        if !digits_only(bytes, start, end - 1) || letter < 65 || letter > 90 {
            return Err(PanelLocParseError::Illformed);
        }
        match scan_digits(bytes, start, end - 1, usize::MAX as u64) {
            Some(n) => {
                if n >= 1 {
                    Ok(PanelLoc { x: (n - 1) as usize, y: (letter - 65) as usize })
                } else {
                    Err(PanelLocParseError::CouldntParseWidth)
                }
            },
            None => Err(PanelLocParseError::CouldntParseWidth),
        }
    }

    /// Reads a place from its text.
    pub fn from_str(s: &str) -> (r: Result<PanelLoc, PanelLocParseError>)
        ensures
            r == parse_loc(encode_utf8(s@)),
    {
        let bytes = s.as_bytes();
        proof {
            assert(bytes@.subrange(0, bytes@.len() as int) =~= bytes@);
        }
        PanelLoc::parse(bytes, 0, bytes.len())
    }

    /// Appends the text of the place. The rows have letters up to `Z`.
    pub fn write_to(&self, out: &mut String)
        requires
            self.x < usize::MAX,
            self.y < 26,
        ensures
            final(out)@ == old(out)@ + loc_text(*self),
    {
        push_decimal(out, (self.x + 1) as u64);
        out.append(letter_text(self.y));
        proof {
            assert(out@ =~= old(out)@ + loc_text(*self));
        }
    }

    /// The text of the place. The rows have letters up to `Z`.
    pub fn to_string(&self) -> (text: String)
        requires
            self.x < usize::MAX,
            self.y < 26,
        ensures
            text@ == loc_text(*self),
    {
        let mut out = String::new();
        self.write_to(&mut out);
        proof {
            assert(out@ =~= loc_text(*self));
        }
        out
    }
}

/// Why a text is not a region.
#[derive(Clone, Copy, Debug, PartialEq, Eq, Structural)]
pub enum NeighbourhoodParseError {
    /// The text has no line break after the place of the seed.
    PrematureEndToInput,
    /// The first line names no cell.
    PanelLocParseError(PanelLocParseError),
    /// A cell of the picture lies further from the seed than an offset can tell.
    OffsetOutOfRange,
}

/// The least of zero and the entries' coordinates along one axis.
pub open spec fn least(entries: Seq<(i8, i8, Panel)>, horizontal: bool) -> int {
    choose|m: int| is_min_with_zero(entries, horizontal, m)
}

/// The greatest of zero and the entries' coordinates along one axis.
pub open spec fn greatest(entries: Seq<(i8, i8, Panel)>, horizontal: bool) -> int {
    choose|m: int| is_max_with_zero(entries, horizontal, m)
}

/// The index of the first entry from `i` on with the offset `(dx, dy)`; the number of
/// entries if there is none.
pub open spec fn first_at(entries: Seq<(i8, i8, Panel)>, dx: int, dy: int, i: int) -> int
    decreases entries.len() - i,
{
    if 0 <= i < entries.len() && !(entries[i].0 == dx && entries[i].1 == dy) {
        first_at(entries, dx, dy, i + 1)
    } else {
        i
    }
}

/// How the picture shows the offset `(dx, dy)`: `O` for the seed, `#` for a lit cell of
/// the region, `.` for an unlit one, and a blank for a cell outside the region.
pub open spec fn cell_char(entries: Seq<(i8, i8, Panel)>, dx: int, dy: int) -> char {
    let i = first_at(entries, dx, dy, 0);
    if dx == 0 && dy == 0 {
        'O'
    } else if 0 <= i < entries.len() {
        if entries[i].2.filled {
            '#'
        } else {
            '.'
        }
    } else {
        ' '
    }
}

/// The picture of the offsets `(from, dy)` up to `(to - 1, dy)`.
pub open spec fn picture_row(entries: Seq<(i8, i8, Panel)>, dy: int, from: int, to: int) -> Seq<
    char,
>
    decreases to - from,
{
    if to <= from {
        Seq::empty()
    } else {
        picture_row(entries, dy, from, to - 1).push(cell_char(entries, to - 1, dy))
    }
}

/// The picture of the rows `top` up to `bottom - 1`, each closed by a line break.
pub open spec fn picture(
    entries: Seq<(i8, i8, Panel)>,
    from: int,
    to: int,
    top: int,
    bottom: int,
) -> Seq<char>
    decreases bottom - top,
{
    if bottom <= top {
        Seq::empty()
    } else {
        picture(entries, from, to, top, bottom - 1) + picture_row(entries, bottom - 1, from, to)
            + seq!['\n']
    }
}

/// The text of a region: the place of the seed on a line of its own, then the picture of
/// the box around the seed and the region, then an empty line.
pub open spec fn neighbourhood_text(n: Neighbourhood) -> Seq<char> {
    loc_text(PanelLoc { x: n.offset_x, y: n.offset_y }) + seq!['\n'] + picture(
        n.contents@,
        least(n.contents@, true),
        greatest(n.contents@, true) + 1,
        least(n.contents@, false),
        greatest(n.contents@, false) + 1,
    ) + seq!['\n']
}

/// Whether the byte draws a cell of the region.
pub open spec fn is_mark(b: u8) -> bool {
    b == 79 || b == 35 || b == 46
}

/// Whether the byte goes on with a character that an earlier byte began.
pub open spec fn is_continuation(b: u8) -> bool {
    128 <= b < 192
}

/// The column after the one of the character that the byte begins or goes on with.
pub open spec fn next_col(b: u8, col: int) -> int {
    if is_continuation(b) {
        col
    } else {
        col + 1
    }
}

/// The cells drawn from byte `i` on, as `(column, line)`, in the order of the text. The
/// byte `i` stands in column `col` of line `row`; columns count characters.
pub open spec fn scan_marks(bytes: Seq<u8>, i: int, col: int, row: int) -> Seq<(usize, usize)>
    decreases bytes.len() - i,
{
    if !(0 <= i < bytes.len()) {
        Seq::empty()
    } else if bytes[i] == 10 {
        scan_marks(bytes, i + 1, 0, row + 1)
    } else if is_mark(bytes[i]) {
        seq![(col as usize, row as usize)] + scan_marks(bytes, i + 1, col + 1, row)
    } else {
        scan_marks(bytes, i + 1, next_col(bytes[i], col), row)
    }
}

/// The place of the last `O` from byte `i` on; `origin` if there is none.
pub open spec fn scan_origin(
    bytes: Seq<u8>,
    i: int,
    col: int,
    row: int,
    origin: (usize, usize),
) -> (usize, usize)
    decreases bytes.len() - i,
{
    if !(0 <= i < bytes.len()) {
        origin
    } else if bytes[i] == 10 {
        scan_origin(bytes, i + 1, 0, row + 1, origin)
    } else if bytes[i] == 79 {
        scan_origin(bytes, i + 1, col + 1, row, (col as usize, row as usize))
    } else {
        scan_origin(bytes, i + 1, next_col(bytes[i], col), row, origin)
    }
}

/// One more than the greatest column of the cells; zero if there are none.
pub open spec fn span(marks: Seq<(usize, usize)>) -> int
    decreases marks.len(),
{
    if marks.len() == 0 {
        0
    } else if marks.last().0 + 1 > span(marks.drop_last()) {
        marks.last().0 + 1
    } else {
        span(marks.drop_last())
    }
}

/// Whether every cell lies near enough to the seed for an offset to tell.
pub open spec fn within_reach(marks: Seq<(usize, usize)>, origin: (usize, usize)) -> bool {
    forall|k: int|
        0 <= k < marks.len() ==> -128 <= (#[trigger] marks[k]).0 - origin.0 <= 127 && -128
            <= marks[k].1 - origin.1 <= 127
}

/// The entry of a drawn cell: its offset from the seed, and a lit panel.
pub open spec fn drawn_entry(mark: (usize, usize), origin: (usize, usize)) -> (i8, i8, Panel) {
    (
        (mark.0 - origin.0) as i8,
        (mark.1 - origin.1) as i8,
        Panel { filled: true, fixed: false, symbol: Symbol::Plain },
    )
}

/// The entries of those among the first `k` cells that stand in column `col`.
pub open spec fn arranged_column(
    marks: Seq<(usize, usize)>,
    origin: (usize, usize),
    col: int,
    k: int,
) -> Seq<(i8, i8, Panel)>
    decreases k,
{
    if k <= 0 {
        Seq::empty()
    } else if marks[k - 1].0 == col {
        arranged_column(marks, origin, col, k - 1).push(drawn_entry(marks[k - 1], origin))
    } else {
        arranged_column(marks, origin, col, k - 1)
    }
}

/// The entries of the cells in the first `cols` columns, column by column, and within a
/// column in the order of the text.
pub open spec fn arranged(marks: Seq<(usize, usize)>, origin: (usize, usize), cols: int) -> Seq<
    (i8, i8, Panel),
>
    decreases cols,
{
    if cols <= 0 {
        Seq::empty()
    } else {
        arranged(marks, origin, cols - 1) + arranged_column(
            marks,
            origin,
            cols - 1,
            marks.len() as int,
        )
    }
}

/// The region that the bytes spell, as the place of its seed and its entries. The first
/// line names the seed. The lines after it draw the region: `O` marks the seed, the last
/// one if there are several and the first place of the picture if there is none; `#` and
/// `.` mark the other cells; any other character leaves a gap. Every entry is lit.
pub open spec fn parse_neighbourhood(bytes: Seq<u8>) -> Result<
    (PanelLoc, Seq<(i8, i8, Panel)>),
    NeighbourhoodParseError,
> {
    let len = bytes.len() as int;
    let line = find_byte(bytes, 10, 0, len);
    let marks = scan_marks(bytes, line + 1, 0, 0);
    let origin = scan_origin(bytes, line + 1, 0, 0, (0, 0));
    if line >= len {
        Err(NeighbourhoodParseError::PrematureEndToInput)
    } else {
        match parse_loc(bytes.subrange(0, line)) {
            Err(e) => Err(NeighbourhoodParseError::PanelLocParseError(e)),
            Ok(loc) => if within_reach(marks, origin) {
                Ok((loc, arranged(marks, origin, span(marks))))
            } else {
                Err(NeighbourhoodParseError::OffsetOutOfRange)
            },
        }
    }
}

/// Whether a parse gave what the grammar says.
pub open spec fn neighbourhood_parse_agrees(
    got: Result<Neighbourhood, NeighbourhoodParseError>,
    want: Result<(PanelLoc, Seq<(i8, i8, Panel)>), NeighbourhoodParseError>,
) -> bool {
    match (got, want) {
        (Ok(n), Ok(w)) => n.offset_x == w.0.x && n.offset_y == w.0.y && n.contents@ == w.1,
        (Err(e), Err(f)) => e == f,
        _ => false,
    }
}

/// Whether the cells stand in the order of the text: by line, then by column.
pub open spec fn in_text_order(marks: Seq<(usize, usize)>) -> bool {
    forall|i: int, j: int|
        0 <= i < j < marks.len() ==> {
            let a = #[trigger] marks[i];
            let b = #[trigger] marks[j];
            a.1 < b.1 || (a.1 == b.1 && a.0 < b.0)
        }
}

/// The cells drawn from a place on stand in the order of the text, none before that
/// place.
proof fn lemma_scan_marks_ordered(bytes: Seq<u8>, i: int, col: int, row: int)
    requires
        0 <= i <= bytes.len(),
        0 <= col,
        0 <= row,
        col + (bytes.len() - i) <= usize::MAX,
        row + (bytes.len() - i) <= usize::MAX,
    ensures
        in_text_order(scan_marks(bytes, i, col, row)),
        forall|k: int|
            0 <= k < scan_marks(bytes, i, col, row).len() ==> {
                let m = #[trigger] scan_marks(bytes, i, col, row)[k];
                m.1 > row || (m.1 == row && m.0 >= col)
            },
    decreases bytes.len() - i,
{
    let marks = scan_marks(bytes, i, col, row);
    if i < bytes.len() {
        if bytes[i] == 10 {
            lemma_scan_marks_ordered(bytes, i + 1, 0, row + 1);
        } else if is_mark(bytes[i]) {
            lemma_scan_marks_ordered(bytes, i + 1, col + 1, row);
            let rest = scan_marks(bytes, i + 1, col + 1, row);
            assert(marks =~= seq![(col as usize, row as usize)] + rest);
            assert forall|k: int| 0 <= k < marks.len() implies ({
                let m = #[trigger] marks[k];
                m.1 > row || (m.1 == row && m.0 >= col)
            }) by {
                if k > 0 {
                    assert(marks[k] == rest[k - 1]);
                }
            }
            assert forall|a: int, b: int| 0 <= a < b < marks.len() implies ({
                let p = #[trigger] marks[a];
                let q = #[trigger] marks[b];
                p.1 < q.1 || (p.1 == q.1 && p.0 < q.0)
            }) by {
                assert(marks[b] == rest[b - 1]);
                if a > 0 {
                    assert(marks[a] == rest[a - 1]);
                }
            }
        } else {
            lemma_scan_marks_ordered(bytes, i + 1, next_col(bytes[i], col), row);
        }
    }
}

/// The entries of one column rise strictly, and each comes from a cell of that column.
proof fn lemma_arranged_column_rises(
    marks: Seq<(usize, usize)>,
    origin: (usize, usize),
    col: int,
    k: int,
)
    requires
        in_text_order(marks),
        within_reach(marks, origin),
        0 <= k <= marks.len(),
    ensures
        GridView::strictly_rising(arranged_column(marks, origin, col, k)),
        forall|i: int|
            0 <= i < arranged_column(marks, origin, col, k).len() ==> {
                let e = #[trigger] arranged_column(marks, origin, col, k)[i];
                &&& e.0 == col - origin.0
                &&& exists|j: int|
                    0 <= j < k && (#[trigger] marks[j]).0 == col && e.1 == marks[j].1 - origin.1
            },
    decreases k,
{
    if k > 0 {
        lemma_arranged_column_rises(marks, origin, col, k - 1);
        let before = arranged_column(marks, origin, col, k - 1);
        let all = arranged_column(marks, origin, col, k);
        let last = marks[k - 1];
        assert forall|i: int| 0 <= i < all.len() implies ({
            let e = #[trigger] all[i];
            &&& e.0 == col - origin.0
            &&& exists|j: int|
                0 <= j < k && (#[trigger] marks[j]).0 == col && e.1 == marks[j].1 - origin.1
        }) by {
            if i < before.len() {
                assert(all[i] == before[i]);
                let j = choose|j: int|
                    0 <= j < k - 1 && (#[trigger] marks[j]).0 == col && before[i].1 == marks[j].1
                        - origin.1;
                assert(marks[j].0 == col);
            } else {
                assert(all[i] == drawn_entry(last, origin));
                assert(marks[k - 1].0 == col);
            }
        }
        assert forall|a: int, b: int| 0 <= a < b < all.len() implies ({
            let p = #[trigger] all[a];
            let q = #[trigger] all[b];
            p.0 < q.0 || (p.0 == q.0 && p.1 < q.1)
        }) by {
            assert(all[a] == before[a]);
            if b < before.len() {
                assert(all[b] == before[b]);
            } else {
                let j = choose|j: int|
                    0 <= j < k - 1 && (#[trigger] marks[j]).0 == col && before[a].1 == marks[j].1
                        - origin.1;
                assert(all[b] == drawn_entry(last, origin));
                let mj = marks[j];
                let mk = marks[k - 1];
                assert(mj.1 < mk.1 || (mj.1 == mk.1 && mj.0 < mk.0));
            }
        }
    }
}

/// The entries of a picture rise strictly by `dx`, then `dy`.
pub proof fn lemma_arranged_rises(marks: Seq<(usize, usize)>, origin: (usize, usize), cols: int)
    requires
        in_text_order(marks),
        within_reach(marks, origin),
    ensures
        GridView::strictly_rising(arranged(marks, origin, cols)),
        forall|i: int|
            0 <= i < arranged(marks, origin, cols).len() ==> (#[trigger] arranged(
                marks,
                origin,
                cols,
            )[i]).0 < cols - origin.0,
    decreases cols,
{
    if cols > 0 {
        lemma_arranged_rises(marks, origin, cols - 1);
        lemma_arranged_column_rises(marks, origin, cols - 1, marks.len() as int);
        let before = arranged(marks, origin, cols - 1);
        let last = arranged_column(marks, origin, cols - 1, marks.len() as int);
        let all = arranged(marks, origin, cols);
        assert(all == before + last);
        assert forall|i: int| 0 <= i < all.len() implies (#[trigger] all[i]).0 < cols
            - origin.0 by {
            if i < before.len() {
                assert(all[i] == before[i]);
            } else {
                assert(all[i] == last[i - before.len()]);
            }
        }
        assert forall|a: int, b: int| 0 <= a < b < all.len() implies ({
            let p = #[trigger] all[a];
            let q = #[trigger] all[b];
            p.0 < q.0 || (p.0 == q.0 && p.1 < q.1)
        }) by {
            if b < before.len() {
                assert(all[a] == before[a]);
                assert(all[b] == before[b]);
            } else if a < before.len() {
                assert(all[a] == before[a]);
                assert(all[b] == last[b - before.len()]);
            } else {
                assert(all[a] == last[a - before.len()]);
                assert(all[b] == last[b - before.len()]);
            }
        }
    }
}

/// There is one least and one greatest value only.
proof fn lemma_extremes_unique(entries: Seq<(i8, i8, Panel)>, horizontal: bool, low: int, high: int)
    requires
        is_min_with_zero(entries, horizontal, low),
        is_max_with_zero(entries, horizontal, high),
    ensures
        low == least(entries, horizontal),
        high == greatest(entries, horizontal),
{
    let l = least(entries, horizontal);
    let g = greatest(entries, horizontal);
    assert(is_min_with_zero(entries, horizontal, l));
    assert(is_max_with_zero(entries, horizontal, g));
}

/// Reads the picture `bytes[start..]`.
fn scan_picture(bytes: &[u8], start: usize) -> (r: (Vec<(usize, usize)>, (usize, usize)))
    requires
        start <= bytes@.len(),
    ensures
        r.0@ == scan_marks(bytes@, start as int, 0, 0),
        r.1 == scan_origin(bytes@, start as int, 0, 0, (0, 0)),
        forall|k: int| 0 <= k < r.0@.len() ==> (#[trigger] r.0@[k]).0 < bytes@.len(),
{
    let len = bytes.len();
    let mut marks: Vec<(usize, usize)> = Vec::new();
    let mut origin: (usize, usize) = (0, 0);
    let mut col: usize = 0;
    let mut row: usize = 0;
    let mut i: usize = start;
    proof {
        assert(marks@ + scan_marks(bytes@, i as int, col as int, row as int) =~= scan_marks(
            bytes@,
            start as int,
            0,
            0,
        ));
    }
    while i < len
        invariant
            start <= i <= len,
            len == bytes@.len(),
            col <= i - start,
            row <= i - start,
            forall|k: int| 0 <= k < marks@.len() ==> (#[trigger] marks@[k]).0 < len,
            marks@ + scan_marks(bytes@, i as int, col as int, row as int) == scan_marks(
                bytes@,
                start as int,
                0,
                0,
            ),
            scan_origin(bytes@, i as int, col as int, row as int, origin) == scan_origin(
                bytes@,
                start as int,
                0,
                0,
                (0, 0),
            ),
        decreases len - i,
    {
        let b = bytes[i];
        let ghost before = marks@;
        let ghost rest = scan_marks(bytes@, i as int, col as int, row as int);
        if b == 10 {
            col = 0;
            row += 1;
        } else if b == 79 || b == 35 || b == 46 {
            marks.push((col, row));
            if b == 79 {
                origin = (col, row);
            }
            col += 1;
        } else if !(b >= 128 && b < 192) {
            col += 1;
        }
        i += 1;
        proof {
            assert(marks@ + scan_marks(bytes@, i as int, col as int, row as int) =~= before
                + rest);
        }
    }
    proof {
        assert(marks@ + scan_marks(bytes@, i as int, col as int, row as int) =~= marks@);
    }
    (marks, origin)
}

/// One more than the greatest column of the cells.
fn span_of(marks: &Vec<(usize, usize)>) -> (r: usize)
    requires
        forall|k: int| 0 <= k < marks@.len() ==> (#[trigger] marks@[k]).0 < usize::MAX,
    ensures
        r == span(marks@),
{
    let mut r: usize = 0;
    let mut k: usize = 0;
    proof {
        assert(marks@.take(0) =~= Seq::empty());
    }
    while k < marks.len()
        invariant
            k <= marks@.len(),
            forall|j: int| 0 <= j < marks@.len() ==> (#[trigger] marks@[j]).0 < usize::MAX,
            r == span(marks@.take(k as int)),
        decreases marks@.len() - k,
    {
        proof {
            assert(marks@.take(k + 1).drop_last() =~= marks@.take(k as int));
            assert(marks@.take(k + 1).last() == marks@[k as int]);
        }
        if marks[k].0 + 1 > r {
            r = marks[k].0 + 1;
        }
        k += 1;
    }
    proof {
        assert(marks@.take(k as int) =~= marks@);
    }
    r
}

/// Whether every cell lies near enough to the seed for an offset to tell.
fn check_reach(marks: &Vec<(usize, usize)>, origin: (usize, usize)) -> (r: bool)
    ensures
        r == within_reach(marks@, origin),
{
    let mut k: usize = 0;
    while k < marks.len()
        invariant
            k <= marks@.len(),
            forall|j: int|
                0 <= j < k ==> -128 <= (#[trigger] marks@[j]).0 - origin.0 <= 127 && -128
                    <= marks@[j].1 - origin.1 <= 127,
        decreases marks@.len() - k,
    {
        let m = marks[k];
        let dx = m.0 as i128 - origin.0 as i128;
        let dy = m.1 as i128 - origin.1 as i128;
        if dx < -128 || dx > 127 || dy < -128 || dy > 127 {
            return false;
        }
        k += 1;
    }
    true
}

/// Lists the entries of the cells column by column.
fn arrange(marks: &Vec<(usize, usize)>, origin: (usize, usize), cols: usize) -> (v: Vec<
    (i8, i8, Panel),
>)
    requires
        within_reach(marks@, origin),
    ensures
        v@ == arranged(marks@, origin, cols as int),
{
    let mut v: Vec<(i8, i8, Panel)> = Vec::new();
    let mut col: usize = 0;
    while col < cols
        invariant
            col <= cols,
            within_reach(marks@, origin),
            v@ == arranged(marks@, origin, col as int),
        decreases cols - col,
    {
        let ghost before = v@;
        let mut k: usize = 0;
        proof {
            assert(v@ =~= before + arranged_column(marks@, origin, col as int, 0));
        }
        while k < marks.len()
            invariant
                k <= marks@.len(),
                col < cols,
                within_reach(marks@, origin),
                before == arranged(marks@, origin, col as int),
                v@ == before + arranged_column(marks@, origin, col as int, k as int),
            decreases marks@.len() - k,
        {
            let m = marks[k];
            let ghost column = arranged_column(marks@, origin, col as int, k as int);
            if m.0 == col {
                let dx = (m.0 as i128 - origin.0 as i128) as i8;
                let dy = (m.1 as i128 - origin.1 as i128) as i8;
                let entry = (dx, dy, Panel { filled: true, fixed: false, symbol: Symbol::Plain });
                v.push(entry);
                proof {
                    assert(entry == drawn_entry(m, origin));
                    assert(v@ =~= before + column.push(entry));
                }
            }
            k += 1;
        }
        col += 1;
    }
    v
}

impl Neighbourhood {
    /// Reads a region from the bytes of its text.
    pub fn parse(bytes: &[u8]) -> (r: Result<Neighbourhood, NeighbourhoodParseError>)
        ensures
            neighbourhood_parse_agrees(r, parse_neighbourhood(bytes@)),
            r matches Ok(n) ==> GridView::strictly_rising(n.contents@),
    {
        let len = bytes.len();
        let mut line: usize = 0;
        while line < len && bytes[line] != 10
            invariant
                line <= len,
                len == bytes@.len(),
                find_byte(bytes@, 10, 0, len as int) == find_byte(
                    bytes@,
                    10,
                    line as int,
                    len as int,
                ),
            decreases len - line,
        {
            line += 1;
        }
        if line >= len {
            return Err(NeighbourhoodParseError::PrematureEndToInput);
        }
        let loc = match PanelLoc::parse(bytes, 0, line) {
            Err(e) => {
                return Err(NeighbourhoodParseError::PanelLocParseError(e));
            },
            Ok(loc) => loc,
        };
        let (marks, origin) = scan_picture(bytes, line + 1);
        if !check_reach(&marks, origin) {
            return Err(NeighbourhoodParseError::OffsetOutOfRange);
        }
        let cols = span_of(&marks);
        let contents = arrange(&marks, origin, cols);
        proof {
            lemma_scan_marks_ordered(bytes@, line + 1, 0, 0);
            lemma_arranged_rises(marks@, origin, cols as int);
        }
        Ok(Neighbourhood { offset_x: loc.x, offset_y: loc.y, contents })
    }

    /// Reads a region from its text.
    pub fn from_str(s: &str) -> (r: Result<Neighbourhood, NeighbourhoodParseError>)
        ensures
            neighbourhood_parse_agrees(r, parse_neighbourhood(encode_utf8(s@))),
            r matches Ok(n) ==> GridView::strictly_rising(n.contents@),
    {
        Neighbourhood::parse(s.as_bytes())
    }

    /// The text of the region. The rows have letters up to `Z`.
    pub fn to_string(&self) -> (text: String)
        requires
            self.offset_x < usize::MAX,
            self.offset_y < 26,
        ensures
            text@ == neighbourhood_text(*self),
    {
        let mut out = String::new();
        PanelLoc { x: self.offset_x, y: self.offset_y }.write_to(&mut out);
        proof {
            reveal_strlit("\n");
        }
        out.append("\n");
        let b = self.bounds();
        proof {
            lemma_extremes_unique(self.contents@, true, b.0 as int, b.2 as int);
            lemma_extremes_unique(self.contents@, false, b.1 as int, b.3 as int);
        }
        let x_min = b.0 as i16;
        let y_min = b.1 as i16;
        let x_end = b.2 as i16 + 1;
        let y_end = b.3 as i16 + 1;
        let ghost head = out@;
        proof {
            assert("\n"@ =~= seq!['\n']);
            assert(head =~= loc_text(PanelLoc { x: self.offset_x, y: self.offset_y }) + seq![
                '\n',
            ]);
        }
        let mut y: i16 = y_min;
        while y < y_end
            invariant
                -128 <= x_min <= 0 < x_end <= 128,
                -128 <= y_min <= y <= y_end <= 128,
                head == loc_text(PanelLoc { x: self.offset_x, y: self.offset_y }) + seq!['\n'],
                x_min == least(self.contents@, true),
                x_end == greatest(self.contents@, true) + 1,
                y_min == least(self.contents@, false),
                y_end == greatest(self.contents@, false) + 1,
                out@ == head + picture(
                    self.contents@,
                    x_min as int,
                    x_end as int,
                    y_min as int,
                    y as int,
                ),
            decreases y_end - y,
        {
            let ghost lead = out@;
            let mut x: i16 = x_min;
            proof {
                assert(out@ =~= lead + picture_row(self.contents@, y as int, x_min as int, x as int));
            }
            while x < x_end
                invariant
                    -128 <= x_min <= x <= x_end <= 128,
                    -128 <= y < 128,
                    out@ == lead + picture_row(self.contents@, y as int, x_min as int, x as int),
                decreases x_end - x,
            {
                out.append(cell_text(&self.contents, x, y));
                proof {
                    assert(out@ =~= lead + picture_row(
                        self.contents@,
                        y as int,
                        x_min as int,
                        x + 1,
                    ));
                }
                x += 1;
            }
            out.append("\n");
            proof {
                reveal_strlit("\n");
                assert("\n"@ =~= seq!['\n']);
                assert(out@ =~= head + picture(
                    self.contents@,
                    x_min as int,
                    x_end as int,
                    y_min as int,
                    y + 1,
                ));
            }
            y += 1;
        }
        out.append("\n");
        proof {
            reveal_strlit("\n");
            assert("\n"@ =~= seq!['\n']);
            assert(out@ =~= neighbourhood_text(*self));
        }
        out
    }
}

/// The text that shows one offset in the picture.
fn cell_text(entries: &Vec<(i8, i8, Panel)>, dx: i16, dy: i16) -> (text: &'static str)
    ensures
        text@ == seq![cell_char(entries@, dx as int, dy as int)],
{
    proof {
        reveal_strlit("O");
        reveal_strlit("#");
        reveal_strlit(".");
        reveal_strlit(" ");
    }
    let mut i: usize = 0;
    while i < entries.len() && !(entries[i].0 as i16 == dx && entries[i].1 as i16 == dy)
        invariant
            i <= entries@.len(),
            first_at(entries@, dx as int, dy as int, 0) == first_at(
                entries@,
                dx as int,
                dy as int,
                i as int,
            ),
        decreases entries@.len() - i,
    {
        i += 1;
    }
    let text = if dx == 0 && dy == 0 {
        "O"
    } else if i < entries.len() {
        if entries[i].2.filled {
            "#"
        } else {
            "."
        }
    } else {
        " "
    };
    assert(text@ =~= seq![cell_char(entries@, dx as int, dy as int)]);
    text
}

} // verus!
