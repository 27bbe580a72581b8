//! The text form of a grid: a line with the width and the height, then the cells row by
//! row, separated by white space.

use vstd::prelude::*;
use vstd::string::StringExecFns;
use vstd::utf8::{encode_utf8, is_ascii_chars, is_ascii_chars_encode_utf8};
use crate::decimal::{
    ascii_bytes,
    decimal,
    lemma_decimal_is_ascii,
    lemma_decimal_round_trip,
    parse_unsigned,
    push_decimal,
    scan_unsigned,
};
use crate::grid::{set_panel, Grid, Gridlike};
use crate::model::GridView;
use crate::panel::Panel;
use crate::panel_text::{
    lemma_panel_round_trip,
    panel_text,
    parse_panel,
    symbol_text,
    PanelParseError,
    PanelParseFault,
};
use crate::symbol::Symbol;

verus! {

/// Why a text is not a grid.
#[derive(Clone, Debug, PartialEq, Eq)]
pub enum GridParseError {
    /// The text has no line break after the size.
    EmptyInput,
    /// The first line is blank.
    MissingWidth,
    /// The first line holds one word only.
    MissingHeight,
    /// The width is no number, or more than a grid can have.
    InvalidWidth,
    /// The height is no number, or more than a grid can have.
    InvalidHeight,
    /// The text of the cell `(x, y)` is no cell.
    InvalidPanel { x: usize, y: usize, e: PanelParseError },
    /// The text ends before the last cell.
    PrematureEndOfInput,
}

/// The model of a [`GridParseError`].
pub enum GridParseFault {
    EmptyInput,
    MissingWidth,
    MissingHeight,
    InvalidWidth,
    InvalidHeight,
    InvalidPanel { x: usize, y: usize, e: PanelParseFault },
    PrematureEndOfInput,
}

impl View for GridParseError {
    type V = GridParseFault;

    open spec fn view(&self) -> GridParseFault {
        match *self {
            GridParseError::EmptyInput => GridParseFault::EmptyInput,
            GridParseError::MissingWidth => GridParseFault::MissingWidth,
            GridParseError::MissingHeight => GridParseFault::MissingHeight,
            GridParseError::InvalidWidth => GridParseFault::InvalidWidth,
            GridParseError::InvalidHeight => GridParseFault::InvalidHeight,
            GridParseError::InvalidPanel { x, y, e } => GridParseFault::InvalidPanel { x, y, e: e@ },
            GridParseError::PrematureEndOfInput => GridParseFault::PrematureEndOfInput,
        }
    }
}

/// Whether a parse gave what the grammar says.
pub open spec fn grid_parse_agrees<G: Gridlike>(
    got: Result<G, GridParseError>,
    want: Result<GridView, GridParseFault>,
) -> bool {
    match (got, want) {
        (Ok(g), Ok(v)) => g.wf() && g@ == v,
        (Err(e), Err(f)) => e@ == f,
        _ => false,
    }
}

/// Whether the byte is ASCII white space.
pub open spec fn is_space(b: u8) -> bool {
    b == 32 || (9 <= b <= 13)
}

/// The first index from `i` on, below `end`, that holds the byte; `end` if none does.
pub open spec fn find_byte(bytes: Seq<u8>, byte: u8, i: int, end: int) -> int
    decreases end - i,
{
    if i < end && bytes[i] != byte {
        find_byte(bytes, byte, i + 1, end)
    } else {
        i
    }
}

/// The first index from `i` on, below `end`, that holds no white space; `end` if none.
pub open spec fn skip_spaces(bytes: Seq<u8>, i: int, end: int) -> int
    decreases end - i,
{
    if i < end && is_space(bytes[i]) {
        skip_spaces(bytes, i + 1, end)
    } else {
        i
    }
}

/// The first index from `i` on, below `end`, that holds white space; `end` if none.
pub open spec fn token_end(bytes: Seq<u8>, i: int, end: int) -> int
    decreases end - i,
{
    if i < end && !is_space(bytes[i]) {
        token_end(bytes, i + 1, end)
    } else {
        i
    }
}

/// The grid that the words from `pos` on complete: one word for each cell from `(x, y)`
/// on, row by row. Words after the last cell are not read.
pub open spec fn parse_cells(bytes: Seq<u8>, pos: int, grid: GridView, x: int, y: int) -> Result<
    GridView,
    GridParseFault,
>
    decreases grid.rank(x, y),
    when grid.width <= 16 && 0 <= x && 0 <= y
{
    if y >= grid.height || grid.width == 0 {
        Ok(grid)
    } else if x >= grid.width {
        parse_cells(bytes, pos, grid, 0, y + 1)
    } else {
        let start = skip_spaces(bytes, pos, bytes.len() as int);
        let end = token_end(bytes, start, bytes.len() as int);
        if start >= bytes.len() {
            Err(GridParseFault::PrematureEndOfInput)
        } else {
            match parse_panel(bytes.subrange(start, end)) {
                Err(e) => Err(GridParseFault::InvalidPanel { x: x as usize, y: y as usize, e }),
                Ok(panel) => parse_cells(bytes, end, grid.with_panel(x, y, panel), x + 1, y),
            }
        }
    }
}

/// The grid that the bytes spell. The first line holds the width, at most 16, and the
/// height, at most 12, as two words; the cells follow as words, row by row.
pub open spec fn parse_grid(bytes: Seq<u8>) -> Result<GridView, GridParseFault> {
    let len = bytes.len() as int;
    let line = find_byte(bytes, 10, 0, len);
    let w0 = skip_spaces(bytes, 0, line);
    let w1 = token_end(bytes, w0, line);
    let h0 = skip_spaces(bytes, w1, line);
    let h1 = token_end(bytes, h0, line);
    if line >= len {
        Err(GridParseFault::EmptyInput)
    } else if w0 >= line {
        Err(GridParseFault::MissingWidth)
    } else {
        match parse_unsigned(bytes.subrange(w0, w1), 16) {
            None => Err(GridParseFault::InvalidWidth),
            Some(width) => if h0 >= line {
                Err(GridParseFault::MissingHeight)
            } else {
                match parse_unsigned(bytes.subrange(h0, h1), 12) {
                    None => Err(GridParseFault::InvalidHeight),
                    Some(height) => parse_cells(
                        bytes,
                        line + 1,
                        GridView::empty(width, height),
                        0,
                        0,
                    ),
                }
            },
        }
    }
}

/// The text of the cells from `(x, y)` on, row by row: each cell is followed by a blank,
/// a line break stands between two rows, and a line break ends the text.
pub open spec fn cells_text(grid: GridView, x: int, y: int) -> Seq<char>
    decreases grid.rank(x, y),
    when grid.width <= 16 && 0 <= x && 0 <= y
{
    if y >= grid.height || grid.width == 0 {
        seq!['\n']
    } else if x >= grid.width {
        (if y + 1 < grid.height {
            seq!['\n']
        } else {
            Seq::empty()
        }) + cells_text(grid, 0, y + 1)
    } else {
        panel_text(grid.panel(x, y)) + seq![' '] + cells_text(grid, x + 1, y)
    }
}

/// The text of a grid: the width and the height on a line of their own, then the cells.
pub open spec fn grid_text(grid: GridView) -> Seq<char> {
    decimal(grid.width) + seq![' '] + decimal(grid.height) + seq!['\n'] + cells_text(grid, 0, 0)
}

/// Where the search for a byte ends: at the first place that holds it.
pub proof fn lemma_find_byte(bytes: Seq<u8>, byte: u8, i: int, end: int, target: int)
    requires
        0 <= i <= target <= end <= bytes.len(),
        forall|k: int| i <= k < target ==> #[trigger] bytes[k] != byte,
        target < end ==> bytes[target] == byte,
    ensures
        find_byte(bytes, byte, i, end) == target,
    decreases target - i,
{
    if i < target {
        lemma_find_byte(bytes, byte, i + 1, end, target);
    }
}

/// Where skipping white space ends: at the first place that holds none.
pub proof fn lemma_skip_spaces(bytes: Seq<u8>, i: int, end: int, target: int)
    requires
        0 <= i <= target <= end <= bytes.len(),
        forall|k: int| i <= k < target ==> is_space(#[trigger] bytes[k]),
        target < end ==> !is_space(bytes[target]),
    ensures
        skip_spaces(bytes, i, end) == target,
    decreases target - i,
{
    if i < target {
        lemma_skip_spaces(bytes, i + 1, end, target);
    }
}

/// Where a word ends: at the first place that holds white space.
pub proof fn lemma_token_end(bytes: Seq<u8>, i: int, end: int, target: int)
    requires
        0 <= i <= target <= end <= bytes.len(),
        forall|k: int| i <= k < target ==> !is_space(#[trigger] bytes[k]),
        target < end ==> is_space(bytes[target]),
    ensures
        token_end(bytes, i, end) == target,
    decreases target - i,
{
    if i < target {
        lemma_token_end(bytes, i + 1, end, target);
    }
}

/// The text of a cell is one word: it is not empty and holds no white space.
#[verifier::rlimit(50)]
pub proof fn lemma_panel_text_is_a_word(panel: Panel)
    ensures
        panel_text(panel).len() > 0,
        forall|i: int|
            0 <= i < panel_text(panel).len() ==> !is_space(#[trigger] ascii_bytes(panel_text(panel))[i]),
{
    let text = panel_text(panel);
    let glyph = symbol_text(panel.symbol);
    let skipped: int = if panel.fixed {
        2
    } else {
        1
    };
    assert(text.len() == skipped + glyph.len());
    assert(text[0] == (if panel.filled {
        'X'
    } else {
        '.'
    }));
    if panel.fixed {
        assert(text[1] == '!');
    }
    assert forall|i: int| 0 <= i < glyph.len() implies '!' <= #[trigger] glyph[i] <= 'Z' by {
        match panel.symbol {
            Symbol::Plain => {},
            Symbol::Pips { count, color } => {
                let size: nat = if count < 0 {
                    (-count) as nat
                } else {
                    count as nat
                };
                lemma_decimal_is_ascii(size);
                let number = crate::decimal::signed_decimal(count as int);
                assert(glyph[0] == 'C');
                assert(glyph[1] == color.code_spec());
                if i >= 2 {
                    assert(glyph[i] == number[i - 2]);
                    if count < 0 && i > 2 {
                        assert(number[i - 2] == decimal(size)[i - 3]);
                    }
                }
            },
            Symbol::Line { diagonal, color } => {},
            Symbol::Lozange { color } => {},
            Symbol::Petals { count } => {
                lemma_decimal_is_ascii(count as nat);
                assert(glyph[0] == 'F');
                if i >= 1 {
                    assert(glyph[i] == decimal(count as nat)[i - 1]);
                }
            },
        }
    }
    assert forall|i: int| 0 <= i < text.len() implies !is_space(
        #[trigger] ascii_bytes(text)[i],
    ) by {
        if i >= skipped {
            assert(text[i] == glyph[i - skipped]);
        }
    }
}

/// Every glyph of the grid is valid.
pub open spec fn valid_glyphs(grid: GridView) -> bool {
    forall|x: int, y: int| #[trigger] grid.contains(x, y) ==> grid.symbol(x, y).valid()
}

/// The text of the cells from `(x, y)` on reads back as those cells: a parse that stands
/// at `pos`, with nothing but white space up to the place `at` where that text begins,
/// and that has the cells before `(x, y)` right, gives the grid.
#[verifier::rlimit(50)]
proof fn lemma_cells_round_trip(
    grid: GridView,
    read: GridView,
    bytes: Seq<u8>,
    pos: int,
    at: int,
    x: int,
    y: int,
)
    requires
        grid.wf(),
        valid_glyphs(grid),
        read.wf(),
        read.width == grid.width,
        read.height == grid.height,
        0 <= x <= grid.width,
        0 <= y,
        forall|ax: int, ay: int|
            #[trigger] grid.contains(ax, ay) && (ay < y || (ay == y && ax < x)) ==> read.panel(
                ax,
                ay,
            ) == grid.panel(ax, ay),
        0 <= pos <= at <= bytes.len(),
        forall|k: int| pos <= k < at ==> is_space(#[trigger] bytes[k]),
        bytes.skip(at) == ascii_bytes(cells_text(grid, x, y)),
    ensures
        parse_cells(bytes, pos, read, x, y) == Ok::<GridView, GridParseFault>(grid),
    decreases grid.rank(x, y),
{
    let rest = ascii_bytes(cells_text(grid, x, y));
    assert(forall|k: int| 0 <= k < rest.len() ==> bytes[at + k] == #[trigger] rest[k]) by {
        assert forall|k: int| 0 <= k < rest.len() implies bytes[at + k] == #[trigger] rest[k] by {
            assert(bytes.skip(at)[k] == bytes[at + k]);
        }
    }
    assert(bytes.len() == at + rest.len()) by {
        assert(bytes.skip(at).len() == bytes.len() - at);
    }
    if y >= grid.height || grid.width == 0 {
        assert(read.cells =~= grid.cells) by {
            assert forall|p: (int, int)| grid.cells.dom().contains(p) implies #[trigger] read.cells[p]
                == grid.cells[p] by {
                assert(grid.contains(p.0, p.1));
                assert(read.panel(p.0, p.1) == grid.panel(p.0, p.1));
            }
        }
        assert(read == grid);
    } else if x >= grid.width {
        let next = ascii_bytes(cells_text(grid, 0, y + 1));
        if y + 1 < grid.height {
            assert(cells_text(grid, x, y) =~= seq!['\n'] + cells_text(grid, 0, y + 1));
            assert(rest[0] == 10);
            assert(bytes[at + 0] == rest[0]);
            assert(bytes.skip(at + 1) =~= next) by {
                assert forall|k: int| 0 <= k < next.len() implies bytes.skip(at + 1)[k]
                    == #[trigger] next[k] by {
                    assert(rest[k + 1] == next[k]);
                    assert(bytes[at + (k + 1)] == rest[k + 1]);
                }
            }
            lemma_cells_round_trip(grid, read, bytes, pos, at + 1, 0, y + 1);
        } else {
            assert(cells_text(grid, x, y) =~= cells_text(grid, 0, y + 1));
            lemma_cells_round_trip(grid, read, bytes, pos, at, 0, y + 1);
        }
    } else {
        let panel = grid.panel(x, y);
        let word = panel_text(panel);
        let n = word.len() as int;
        let next = ascii_bytes(cells_text(grid, x + 1, y));
        let len = bytes.len() as int;
        assert(grid.contains(x, y));
        lemma_panel_text_is_a_word(panel);
        lemma_panel_round_trip(panel);
        is_ascii_chars_encode_utf8(word);
        assert(encode_utf8(word) =~= ascii_bytes(word));
        assert(cells_text(grid, x, y) =~= word + seq![' '] + cells_text(grid, x + 1, y));
        assert forall|k: int| 0 <= k < n implies bytes[at + k] == #[trigger] ascii_bytes(word)[k] by {
            assert(rest[k] == ascii_bytes(word)[k]);
        }
        assert(bytes[at + n] == 32) by {
            assert(rest[n] == 32);
        }
        assert(bytes.subrange(at, at + n) =~= ascii_bytes(word));
        assert(bytes.skip(at + n + 1) =~= next) by {
            assert forall|k: int| 0 <= k < next.len() implies bytes.skip(at + n + 1)[k]
                == #[trigger] next[k] by {
                assert(rest[n + 1 + k] == next[k]);
                assert(bytes[at + (n + 1 + k)] == rest[n + 1 + k]);
            }
        }
        assert(!is_space(bytes[at])) by {
            assert(bytes[at + 0] == ascii_bytes(word)[0]);
        }
        lemma_skip_spaces(bytes, pos, len, at);
        assert forall|k: int| at <= k < at + n implies !is_space(#[trigger] bytes[k]) by {
            assert(bytes[at + (k - at)] == ascii_bytes(word)[k - at]);
        }
        lemma_token_end(bytes, at, len, at + n);
        let filled = read.with_panel(x, y, panel);
        assert forall|ax: int, ay: int|
            #[trigger] grid.contains(ax, ay) && (ay < y || (ay == y && ax < x + 1))
                implies filled.panel(ax, ay) == grid.panel(ax, ay) by {
            if !(ax == x && ay == y) {
                assert(read.panel(ax, ay) == grid.panel(ax, ay));
            }
        }
        assert forall|k: int| at + n <= k < at + n + 1 implies is_space(#[trigger] bytes[k]) by {}
        lemma_cells_round_trip(grid, filled, bytes, at + n, at + n + 1, x + 1, y);
    }
}

/// The text of every grid with valid glyphs consists of ASCII characters and reads back
/// as the grid.
#[verifier::rlimit(50)]
pub proof fn lemma_grid_round_trip(grid: GridView)
    requires
        grid.wf(),
        valid_glyphs(grid),
    ensures
        parse_grid(encode_utf8(grid_text(grid))) == Ok::<GridView, GridParseFault>(grid),
{
    let wide = decimal(grid.width);
    let high = decimal(grid.height);
    let cells = cells_text(grid, 0, 0);
    let text = grid_text(grid);
    let bytes = ascii_bytes(text);
    let a = wide.len() as int;
    let b = high.len() as int;
    let line = a + 1 + b;
    let len = bytes.len() as int;
    lemma_decimal_round_trip(grid.width);
    lemma_decimal_round_trip(grid.height);
    lemma_decimal_is_ascii(grid.width);
    lemma_decimal_is_ascii(grid.height);
    lemma_cells_text_is_ascii(grid, 0, 0);
    assert(text.len() == line + 1 + cells.len());
    assert forall|k: int| 0 <= k < text.len() implies #[trigger] text[k] == (if k < a {
        wide[k]
    } else if k == a {
        ' '
    } else if k < line {
        high[k - a - 1]
    } else if k == line {
        '\n'
    } else {
        cells[k - line - 1]
    }) by {}
    assert(is_ascii_chars(text));
    is_ascii_chars_encode_utf8(text);
    assert(encode_utf8(text) =~= bytes);
    assert(bytes.subrange(0, a) =~= ascii_bytes(wide));
    assert(bytes.subrange(a + 1, line) =~= ascii_bytes(high));
    assert(bytes.skip(line + 1) =~= ascii_bytes(cells));
    assert forall|k: int| 0 <= k < line implies #[trigger] bytes[k] != 10 by {
        if k < a {
            assert(bytes[k] == ascii_bytes(wide)[k]);
        } else if k > a {
            assert(bytes[k] == ascii_bytes(high)[k - a - 1]);
        }
    }
    assert(bytes[line] == 10);
    lemma_find_byte(bytes, 10, 0, len, line);
    assert(!is_space(bytes[0])) by {
        assert(bytes[0] == ascii_bytes(wide)[0]);
    }
    lemma_skip_spaces(bytes, 0, line, 0);
    assert forall|k: int| 0 <= k < a implies !is_space(#[trigger] bytes[k]) by {
        assert(bytes[k] == ascii_bytes(wide)[k]);
    }
    assert(bytes[a] == 32);
    lemma_token_end(bytes, 0, line, a);
    assert(!is_space(bytes[a + 1])) by {
        assert(bytes[a + 1] == ascii_bytes(high)[0]);
    }
    lemma_skip_spaces(bytes, a, line, a + 1);
    assert forall|k: int| a + 1 <= k < line implies !is_space(#[trigger] bytes[k]) by {
        assert(bytes[k] == ascii_bytes(high)[k - a - 1]);
    }
    lemma_token_end(bytes, a + 1, line, line);
    let blank = GridView::empty(grid.width, grid.height);
    lemma_cells_round_trip(grid, blank, bytes, line + 1, line + 1, 0, 0);
}

/// The text of the cells consists of ASCII characters.
proof fn lemma_cells_text_is_ascii(grid: GridView, x: int, y: int)
    requires
        grid.wf(),
        valid_glyphs(grid),
        0 <= x <= grid.width,
        0 <= y,
    ensures
        is_ascii_chars(cells_text(grid, x, y)),
    decreases grid.rank(x, y),
{
    let text = cells_text(grid, x, y);
    if y >= grid.height || grid.width == 0 {
    } else if x >= grid.width {
        lemma_cells_text_is_ascii(grid, 0, y + 1);
        let next = cells_text(grid, 0, y + 1);
        assert forall|k: int| 0 <= k < text.len() implies '\0' <= #[trigger] text[k]
            <= '\u{7f}' by {
            if y + 1 < grid.height {
                if k > 0 {
                    assert(text[k] == next[k - 1]);
                }
            } else {
                assert(text[k] == next[k]);
            }
        }
    } else {
        lemma_cells_text_is_ascii(grid, x + 1, y);
        let word = panel_text(grid.panel(x, y));
        let next = cells_text(grid, x + 1, y);
        assert(grid.contains(x, y));
        lemma_panel_round_trip(grid.panel(x, y));
        assert forall|k: int| 0 <= k < text.len() implies '\0' <= #[trigger] text[k]
            <= '\u{7f}' by {
            if k < word.len() {
                assert(text[k] == word[k]);
            } else if k > word.len() {
                assert(text[k] == next[k - word.len() - 1]);
            }
        }
    }
}

/// Finds the first `byte` from `i` on, below `end`.
fn scan_byte(bytes: &[u8], byte: u8, i: usize, end: usize) -> (r: usize)
    requires
        i <= end <= bytes@.len(),
    ensures
        r == find_byte(bytes@, byte, i as int, end as int),
        i <= r <= end,
{
    let mut k: usize = i;
    while k < end && bytes[k] != byte
        invariant
            i <= k <= end <= bytes@.len(),
            find_byte(bytes@, byte, i as int, end as int) == find_byte(
                bytes@,
                byte,
                k as int,
                end as int,
            ),
        decreases end - k,
    {
        k += 1;
    }
    k
}

/// Skips white space from `i` on, below `end`.
fn scan_spaces(bytes: &[u8], i: usize, end: usize) -> (r: usize)
    requires
        i <= end <= bytes@.len(),
    ensures
        r == skip_spaces(bytes@, i as int, end as int),
        i <= r <= end,
{
    let mut k: usize = i;
    while k < end && (bytes[k] == 32 || (9 <= bytes[k] && bytes[k] <= 13))
        invariant
            i <= k <= end <= bytes@.len(),
            skip_spaces(bytes@, i as int, end as int) == skip_spaces(
                bytes@,
                k as int,
                end as int,
            ),
        decreases end - k,
    {
        k += 1;
    }
    k
}

/// Skips a word from `i` on, below `end`.
fn scan_token(bytes: &[u8], i: usize, end: usize) -> (r: usize)
    requires
        i <= end <= bytes@.len(),
    ensures
        r == token_end(bytes@, i as int, end as int),
        i <= r <= end,
{
    let mut k: usize = i;
    while k < end && !(bytes[k] == 32 || (9 <= bytes[k] && bytes[k] <= 13))
        invariant
            i <= k <= end <= bytes@.len(),
            token_end(bytes@, i as int, end as int) == token_end(bytes@, k as int, end as int),
        decreases end - k,
    {
        k += 1;
    }
    k
}

/// Copies `bytes[start..end]`.
fn word_of(bytes: &[u8], start: usize, end: usize) -> (v: Vec<u8>)
    requires
        start <= end <= bytes@.len(),
    ensures
        v@ == bytes@.subrange(start as int, end as int),
{
    let mut v: Vec<u8> = Vec::new();
    let mut i: usize = start;
    while i < end
        invariant
            start <= i <= end <= bytes@.len(),
            v@ == bytes@.subrange(start as int, i as int),
        decreases end - i,
    {
        v.push(bytes[i]);
        i += 1;
        proof {
            assert(v@ =~= bytes@.subrange(start as int, i as int));
        }
    }
    v
}

/// Reads a grid from the bytes of its text.
#[verifier::rlimit(50)]
pub fn parse_grid_bytes<G: Gridlike>(bytes: &[u8]) -> (r: Result<G, GridParseError>)
    ensures
        grid_parse_agrees(r, parse_grid(bytes@)),
{
    let len = bytes.len();
    let line = scan_byte(bytes, 10, 0, len);
    if line >= len {
        return Err(GridParseError::EmptyInput);
    }
    let w0 = scan_spaces(bytes, 0, line);
    if w0 >= line {
        return Err(GridParseError::MissingWidth);
    }
    let w1 = scan_token(bytes, w0, line);
    let width = match scan_unsigned(bytes, w0, w1, 16) {
        None => {
            return Err(GridParseError::InvalidWidth);
        },
        Some(n) => n as usize,
    };
    let h0 = scan_spaces(bytes, w1, line);
    if h0 >= line {
        return Err(GridParseError::MissingHeight);
    }
    let h1 = scan_token(bytes, h0, line);
    let height = match scan_unsigned(bytes, h0, h1, 12) {
        None => {
            return Err(GridParseError::InvalidHeight);
        },
        Some(n) => n as usize,
    };
    let mut grid = G::new(width, height);
    proof {
        grid.lemma_wf();
    }
    let ghost want = parse_grid(bytes@);
    let mut pos: usize = line + 1;
    let mut y: usize = 0;
    while y < height
        invariant
            grid.wf(),
            grid@.wf(),
            grid@.width == width,
            grid@.height == height,
            y <= height,
            len == bytes@.len(),
            want == parse_grid(bytes@),
            line + 1 <= pos <= bytes@.len(),
            want == parse_cells(bytes@, pos as int, grid@, 0, y as int),
        decreases height - y,
    {
        let mut x: usize = 0;
        while x < width
            invariant
                grid.wf(),
                grid@.wf(),
                grid@.width == width,
                grid@.height == height,
                y < height,
                x <= width,
                len == bytes@.len(),
                want == parse_grid(bytes@),
                line + 1 <= pos <= bytes@.len(),
                want == parse_cells(bytes@, pos as int, grid@, x as int, y as int),
            decreases width - x,
        {
            let start = scan_spaces(bytes, pos, len);
            if start >= len {
                return Err(GridParseError::PrematureEndOfInput);
            }
            let end = scan_token(bytes, start, len);
            let word = word_of(bytes, start, end);
            match Panel::parse(word.as_slice()) {
                Err(e) => {
                    return Err(GridParseError::InvalidPanel { x, y, e });
                },
                Ok(panel) => {
                    set_panel(&mut grid, x, y, panel);
                },
            }
            pos = end;
            x += 1;
        }
        y += 1;
    }
    Ok(grid)
}

/// Reads a grid from its text.
pub fn from_str_gridlike<G: Gridlike>(s: &str) -> (r: Result<G, GridParseError>)
    ensures
        grid_parse_agrees(r, parse_grid(encode_utf8(s@))),
{
    parse_grid_bytes(s.as_bytes())
}

impl Grid {
    /// Reads a grid from its text.
    pub fn from_str(s: &str) -> (r: Result<Grid, GridParseError>)
        ensures
            grid_parse_agrees(r, parse_grid(encode_utf8(s@))),
    {
        from_str_gridlike(s)
    }

    /// The text of the grid.
    pub fn to_string(&self) -> (text: String)
        requires
            self.wf(),
        ensures
            text@ == grid_text(self@),
    {
        proof {
            reveal_strlit(" ");
            reveal_strlit("\n");
        }
        let width = self.width();
        let height = self.height();
        let mut out = String::new();
        push_decimal(&mut out, width as u64);
        out.append(" ");
        push_decimal(&mut out, height as u64);
        out.append("\n");
        let ghost full = grid_text(self@);
        proof {
            assert(" "@ =~= seq![' ']);
            assert("\n"@ =~= seq!['\n']);
            assert(out@ + cells_text(self@, 0, 0) =~= full);
        }
        let mut y: usize = 0;
        while y < height && width > 0
            invariant
                self.wf(),
                width == self@.width,
                height == self@.height,
                y <= height,
                out@ + cells_text(self@, 0, y as int) == full,
            decreases height - y,
        {
            let mut x: usize = 0;
            while x < width
                invariant
                    self.wf(),
                    width == self@.width,
                    height == self@.height,
                    y < height,
                    x <= width,
                    out@ + cells_text(self@, x as int, y as int) == full,
                decreases width - x,
            {
                let ghost before = out@;
                let panel = self.panel_at(x, y);
                panel.write_to(&mut out);
                out.append(" ");
                proof {
                    reveal_strlit(" ");
                    assert(" "@ =~= seq![' ']);
                    assert(out@ + cells_text(self@, x + 1, y as int) =~= before + cells_text(
                        self@,
                        x as int,
                        y as int,
                    ));
                }
                x += 1;
            }
            let ghost before = out@;
            if y + 1 < height {
                out.append("\n");
            }
            proof {
                reveal_strlit("\n");
                assert("\n"@ =~= seq!['\n']);
                assert(out@ + cells_text(self@, 0, y + 1) =~= before + cells_text(
                    self@,
                    width as int,
                    y as int,
                ));
            }
            y += 1;
        }
        out.append("\n");
        proof {
            reveal_strlit("\n");
            assert("\n"@ =~= seq!['\n']);
            assert(cells_text(self@, 0, y as int) =~= seq!['\n']);
            assert(out@ =~= full);
        }
        out
    }
}

} // verus!
