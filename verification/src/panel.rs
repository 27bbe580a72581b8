//! The state of one cell, and the rule that each glyph imposes on it.

use vstd::prelude::*;
use crate::grid::Gridlike;
use crate::model::GridView;
use crate::neighbourhood::{has_offset, offsets_of, turned_offsets_of, Neighbourhood};
use crate::region::at_or_before;
use crate::symbol::{Color, Symbol};

verus! {

/// One cell: whether it is lit, whether its lit state is given, and its glyph.
#[derive(Clone, Copy, Debug, PartialEq, Eq, Structural)]
pub struct Panel {
    /// The value under search.
    pub filled: bool,
    /// A fixed cell keeps its lit state: the search never changes it.
    pub fixed: bool,
    pub symbol: Symbol,
}

impl Default for Panel {
    fn default() -> (p: Panel)
        ensures
            p == Panel::blank(),
    {
        Panel { filled: false, fixed: false, symbol: Symbol::Plain }
    }
}

/// A cell by its column and row, both counted from zero.
#[derive(Clone, Copy, Debug, PartialEq, Eq, PartialOrd, Ord, Hash, Structural)]
pub struct PanelLoc {
    pub x: usize,
    pub y: usize,
}

/// Why a cell breaks the rule of its glyph.
#[derive(Clone, Copy, Debug, PartialEq, Eq, Structural)]
#[allow(inconsistent_fields)]
pub enum PanelError {
    /// The region of the pips at `pos` holds pips of another colour at `other_pos`.
    OverlappingPips { pos: PanelLoc, other_pos: PanelLoc, color: Color, other_color: Color },
    /// The pips of the region add up to `required`, but the region has `have` cells.
    WrongNeighbourhoodSize { pos: PanelLoc, required: i32, have: i32 },
    /// `saw` of the adjacent cells are lit as the flower is, where `required` should be.
    PetalCount { pos: PanelLoc, required: usize, saw: usize },
    /// The region holds `saw` glyphs of the lozange's colour instead of two.
    LozangeCount { pos: PanelLoc, saw: i32, color: Color },
    /// The line at `other_pos` has the same colour and a region of another shape.
    LineNeighbourhoodWrongShape { pos: PanelLoc, other_pos: PanelLoc },
    /// The line at `other_pos` has another colour and a region of the same shape.
    DuplicateLineNeighbourhoodShape { pos: PanelLoc, other_pos: PanelLoc },
}

impl PanelError {
    /// The cell that breaks its rule.
    pub open spec fn pos_spec(self) -> PanelLoc {
        match self {
            PanelError::OverlappingPips { pos, .. } => pos,
            PanelError::WrongNeighbourhoodSize { pos, .. } => pos,
            PanelError::PetalCount { pos, .. } => pos,
            PanelError::LozangeCount { pos, .. } => pos,
            PanelError::LineNeighbourhoodWrongShape { pos, .. } => pos,
            PanelError::DuplicateLineNeighbourhoodShape { pos, .. } => pos,
        }
    }

    /// The cell that breaks its rule.
    pub fn get_pos(&self) -> (p: PanelLoc)
        ensures
            p == self.pos_spec(),
    {
        match *self {
            PanelError::OverlappingPips { pos, .. } => pos,
            PanelError::WrongNeighbourhoodSize { pos, .. } => pos,
            PanelError::PetalCount { pos, .. } => pos,
            PanelError::LozangeCount { pos, .. } => pos,
            PanelError::LineNeighbourhoodWrongShape { pos, .. } => pos,
            PanelError::DuplicateLineNeighbourhoodShape { pos, .. } => pos,
        }
    }
}

/// Whether a glyph counts towards a lozange of the given colour: a coloured glyph by its
/// colour, a flower as yellow unless it has no petals and as purple unless it has four.
pub open spec fn counts_as(symbol: Symbol, color: Color) -> bool {
    match symbol {
        Symbol::Plain => false,
        Symbol::Pips { color: c, .. } => c == color,
        Symbol::Line { color: c, .. } => c == color,
        Symbol::Lozange { color: c } => c == color,
        Symbol::Petals { count } => (color == Color::Yellow && count != 0) || (color
            == Color::Purple && count != 4),
    }
}

/// The test [`counts_as`] as a predicate on entries.
pub open spec fn counts_as_pred(color: Color) -> spec_fn((i8, i8, Panel)) -> bool {
    |entry: (i8, i8, Panel)| counts_as(entry.2.symbol, color)
}

/// How many entries hold a glyph that counts towards a lozange of the colour.
pub open spec fn colour_count(entries: Seq<(i8, i8, Panel)>, color: Color) -> nat {
    entries.filter(counts_as_pred(color)).len()
}

/// The pips of a glyph: its count if it is a pips glyph, else none.
pub open spec fn pips_of(symbol: Symbol) -> int {
    match symbol {
        Symbol::Pips { count, .. } => count as int,
        _ => 0,
    }
}

/// The pips of a glyph that count for a colour.
pub open spec fn pips_of_colour(symbol: Symbol, color: Color) -> int {
    match symbol {
        Symbol::Pips { count, color: c } => if c == color {
            count as int
        } else {
            0
        },
        _ => 0,
    }
}

/// The pips of all entries together.
pub open spec fn pip_sum(entries: Seq<(i8, i8, Panel)>) -> int
    decreases entries.len(),
{
    if entries.len() == 0 {
        0
    } else {
        pip_sum(entries.drop_last()) + pips_of(entries.last().2.symbol)
    }
}

/// Whether the entry holds pips of a colour other than `color`.
pub open spec fn clashes(entry: (i8, i8, Panel), color: Color) -> bool {
    entry.2.symbol matches Symbol::Pips { color: c, .. } && c != color
}

/// The index of the first entry that holds pips of another colour.
pub open spec fn first_clash(entries: Seq<(i8, i8, Panel)>, color: Color) -> Option<int>
    decreases entries.len(),
{
    if entries.len() == 0 {
        None
    } else {
        match first_clash(entries.drop_last(), color) {
            Some(i) => Some(i),
            None => if clashes(entries.last(), color) {
                Some(entries.len() - 1)
            } else {
                None
            },
        }
    }
}

/// Whether two regions have the same shape: the same offsets, or, where turning is
/// allowed, the same offsets after some turn of the second.
pub open spec fn shape_matches(
    a: Seq<(i8, i8, Panel)>,
    b: Seq<(i8, i8, Panel)>,
    turning: bool,
) -> bool {
    if turning {
        exists|rot: crate::rotation::Rotation| offsets_of(a) == turned_offsets_of(b, rot)
    } else {
        offsets_of(a) == offsets_of(b)
    }
}

/// One if the cell is a cell of the grid and lit as `lit` says, else zero.
pub open spec fn like(grid: GridView, lit: bool, x: int, y: int) -> int {
    if grid.contains(x, y) && grid.lit(x, y) == lit {
        1
    } else {
        0
    }
}

/// How many of the four cells around `(x, y)` are lit as `lit` says.
pub open spec fn like_neighbours(grid: GridView, lit: bool, x: int, y: int) -> int {
    like(grid, lit, x - 1, y) + like(grid, lit, x + 1, y) + like(grid, lit, x, y - 1) + like(
        grid,
        lit,
        x,
        y + 1,
    )
}

/// The pips of a colour among the first `cols` cells of row `y`.
pub open spec fn pip_total_in_row(grid: GridView, color: Color, y: int, cols: int) -> int
    decreases cols,
{
    if cols <= 0 {
        0
    } else {
        pip_total_in_row(grid, color, y, cols - 1) + pips_of_colour(
            grid.symbol(cols - 1, y),
            color,
        )
    }
}

/// The pips of a colour in the first `rows` rows of the grid.
pub open spec fn pip_total(grid: GridView, color: Color, rows: int) -> int
    decreases rows,
{
    if rows <= 0 {
        0
    } else {
        pip_total(grid, color, rows - 1) + pip_total_in_row(
            grid,
            color,
            rows - 1,
            grid.width as int,
        )
    }
}

/// One if the cell is a cell of the grid, known at the horizon, and lit as `lit` says
/// (`alike`) or the other way (`!alike`); else zero.
pub open spec fn known_one(
    grid: GridView,
    lit: bool,
    alike: bool,
    upto_x: int,
    upto_y: int,
    x: int,
    y: int,
) -> int {
    if grid.contains(x, y) && grid.known(Some((upto_x, upto_y)), x, y) && ((grid.lit(x, y) == lit)
        == alike) {
        1
    } else {
        0
    }
}

/// How many of the four cells around `(x, y)` are known at the horizon and lit as `lit`
/// says (`alike`) or the other way (`!alike`).
pub open spec fn known_neighbours(
    grid: GridView,
    lit: bool,
    alike: bool,
    upto_x: int,
    upto_y: int,
    x: int,
    y: int,
) -> int {
    known_one(grid, lit, alike, upto_x, upto_y, x - 1, y) + known_one(
        grid,
        lit,
        alike,
        upto_x,
        upto_y,
        x + 1,
        y,
    ) + known_one(grid, lit, alike, upto_x, upto_y, x, y - 1) + known_one(
        grid,
        lit,
        alike,
        upto_x,
        upto_y,
        x,
        y + 1,
    )
}

/// Whether `later` is `grid` with the cells that a scan at `(upto_x, upto_y)` does not
/// know yet lit in some way: the same size, the same glyphs, the same fixed cells, and
/// the same lit state wherever the scan has been or the cell is fixed.
pub open spec fn completes(grid: GridView, later: GridView, upto_x: int, upto_y: int) -> bool {
    &&& grid.wf()
    &&& later.wf()
    &&& later.width == grid.width
    &&& later.height == grid.height
    &&& forall|x: int, y: int| #[trigger]
        grid.contains(x, y) ==> {
            &&& later.fixed(x, y) == grid.fixed(x, y)
            &&& later.symbol(x, y) == grid.symbol(x, y)
            &&& grid.known(Some((upto_x, upto_y)), x, y) ==> later.lit(x, y) == grid.lit(x, y)
        }
}

/// A cell that the known cells connect to the seed stays connected to it, however the
/// other cells come to be lit.
pub proof fn lemma_stays_connected(
    grid: GridView,
    later: GridView,
    upto_x: int,
    upto_y: int,
    seed_x: int,
    seed_y: int,
    x: int,
    y: int,
)
    requires
        completes(grid, later, upto_x, upto_y),
        grid.connected(Some((upto_x, upto_y)), seed_x, seed_y, x, y),
    ensures
        later.connected(None, seed_x, seed_y, x, y),
{
    let horizon = Some((upto_x, upto_y));
    let lit = grid.lit(seed_x, seed_y);
    let path = choose|path: Seq<(int, int)>|
        #![auto]
        grid.is_path(lit, horizon, path) && path[0] == (seed_x, seed_y) && path.last() == (x, y);
    assert(grid.open_cell(lit, horizon, path[0].0, path[0].1));
    assert forall|i: int| 0 <= i < path.len() implies later.open_cell(
        later.lit(seed_x, seed_y),
        None,
        (#[trigger] path[i]).0,
        path[i].1,
    ) by {
        assert(grid.open_cell(lit, horizon, path[i].0, path[i].1));
        assert(grid.contains(path[i].0, path[i].1));
    }
    assert(later.is_path(later.lit(seed_x, seed_y), None, path));
}

/// Whether the list holds an entry with the offset and the glyph of `entry`.
pub open spec fn found_in(entries: Seq<(i8, i8, Panel)>, entry: (i8, i8, Panel)) -> bool {
    exists|j: int|
        0 <= j < entries.len() && (#[trigger] entries[j]).0 == entry.0 && entries[j].1 == entry.1
            && entries[j].2.symbol == entry.2.symbol
}

/// A list of entries in strictly rising order, each found again with its glyph in a
/// second such list, holds no more glyphs that count as a colour than the second.
#[verifier::rlimit(50)]
pub proof fn lemma_colour_count_grows(
    a: Seq<(i8, i8, Panel)>,
    b: Seq<(i8, i8, Panel)>,
    color: Color,
)
    requires
        GridView::strictly_rising(a),
        GridView::strictly_rising(b),
        forall|i: int| 0 <= i < a.len() ==> found_in(b, #[trigger] a[i]),
    ensures
        colour_count(a, color) <= colour_count(b, color),
    decreases a.len(),
{
    let pred = counts_as_pred(color);
    reveal(Seq::filter);
    if a.len() > 0 {
        let n = a.len() - 1;
        let last = a[n];
        assert(found_in(b, a[n]));
        let j = choose|j: int|
            0 <= j < b.len() && (#[trigger] b[j]).0 == last.0 && b[j].1 == last.1
                && b[j].2.symbol == last.2.symbol;
        let shorter = a.drop_last();
        let head = b.take(j);
        assert forall|i: int| 0 <= i < shorter.len() implies found_in(
            head,
            #[trigger] shorter[i],
        ) by {
            assert(shorter[i] == a[i]);
            assert(found_in(b, a[i]));
            let k = choose|k: int|
                0 <= k < b.len() && (#[trigger] b[k]).0 == a[i].0 && b[k].1 == a[i].1
                    && b[k].2.symbol == a[i].2.symbol;
            assert(a[i].0 < a[n].0 || (a[i].0 == a[n].0 && a[i].1 < a[n].1));
            if k > j {
                assert(b[j].0 < b[k].0 || (b[j].0 == b[k].0 && b[j].1 < b[k].1));
            }
            assert(k < j);
            assert(head[k] == b[k]);
        }
        assert(GridView::strictly_rising(shorter)) by {
            assert forall|i: int, k: int| 0 <= i < k < shorter.len() implies ({
                let p = #[trigger] shorter[i];
                let q = #[trigger] shorter[k];
                p.0 < q.0 || (p.0 == q.0 && p.1 < q.1)
            }) by {
                assert(shorter[i] == a[i]);
                assert(shorter[k] == a[k]);
            }
        }
        assert(GridView::strictly_rising(head)) by {
            assert forall|i: int, k: int| 0 <= i < k < head.len() implies ({
                let p = #[trigger] head[i];
                let q = #[trigger] head[k];
                p.0 < q.0 || (p.0 == q.0 && p.1 < q.1)
            }) by {
                assert(head[i] == b[i]);
                assert(head[k] == b[k]);
            }
        }
        lemma_colour_count_grows(shorter, head, color);
        // The entry found again counts on both sides or on neither.
        let upto = b.take(j + 1);
        assert(upto.drop_last() =~= head);
        assert(upto.last() == b[j]);
        assert(pred(b[j]) == pred(last));
        assert(b =~= upto + b.skip(j + 1));
        Seq::filter_distributes_over_add(upto, b.skip(j + 1), pred);
    }
}

impl Panel {
    /// The unlit, free cell without a glyph.
    pub open spec fn blank() -> Panel {
        Panel { filled: false, fixed: false, symbol: Symbol::Plain }
    }

    /// What the line at `(cx, cy)`, if there is one, has against a line of the given kind
    /// and colour at `(x, y)`: lines of one colour have regions of the same shape, lines of
    /// different colours have regions of different shapes, and a diagonal line on either
    /// side lets the shapes be turned.
    pub open spec fn line_verdict(
        grid: GridView,
        x: int,
        y: int,
        diagonal: bool,
        color: Color,
        cx: int,
        cy: int,
    ) -> Option<PanelError> {
        if cx == x && cy == y {
            None
        } else {
            match grid.symbol(cx, cy) {
                Symbol::Line { diagonal: other_diagonal, color: other_color } => {
                    let same = shape_matches(
                        grid.region(None, x, y),
                        grid.region(None, cx, cy),
                        diagonal || other_diagonal,
                    );
                    let pos = PanelLoc { x: x as usize, y: y as usize };
                    let other_pos = PanelLoc { x: cx as usize, y: cy as usize };
                    if color == other_color && !same {
                        Some(PanelError::LineNeighbourhoodWrongShape { pos, other_pos })
                    } else if color != other_color && same {
                        Some(PanelError::DuplicateLineNeighbourhoodShape { pos, other_pos })
                    } else {
                        None
                    }
                },
                _ => None,
            }
        }
    }

    /// The first verdict among the first `cols` cells of row `cy`.
    pub open spec fn line_error_in_row(
        grid: GridView,
        x: int,
        y: int,
        diagonal: bool,
        color: Color,
        cy: int,
        cols: int,
    ) -> Option<PanelError>
        decreases cols,
    {
        if cols <= 0 {
            None
        } else {
            match Self::line_error_in_row(grid, x, y, diagonal, color, cy, cols - 1) {
                Some(e) => Some(e),
                None => Self::line_verdict(grid, x, y, diagonal, color, cols - 1, cy),
            }
        }
    }

    /// The first verdict among the cells of the first `rows` rows, row by row.
    pub open spec fn line_error(
        grid: GridView,
        x: int,
        y: int,
        diagonal: bool,
        color: Color,
        rows: int,
    ) -> Option<PanelError>
        decreases rows,
    {
        if rows <= 0 {
            None
        } else {
            match Self::line_error(grid, x, y, diagonal, color, rows - 1) {
                Some(e) => Some(e),
                None => Self::line_error_in_row(
                    grid,
                    x,
                    y,
                    diagonal,
                    color,
                    rows - 1,
                    grid.width as int,
                ),
            }
        }
    }

    /// The rule of pips on a region: all pips of the region have the colour, and they add
    /// up to nothing or to the number of cells of the region.
    pub open spec fn pips_rule(region: Seq<(i8, i8, Panel)>, x: int, y: int, color: Color) -> Result<
        (),
        PanelError,
    > {
        let pos = PanelLoc { x: x as usize, y: y as usize };
        match first_clash(region, color) {
            Some(i) => Err(
                PanelError::OverlappingPips {
                    pos,
                    other_pos: PanelLoc {
                        x: (x + region[i].0) as usize,
                        y: (y + region[i].1) as usize,
                    },
                    color,
                    other_color: region[i].2.symbol->Pips_color,
                },
            ),
            None => if pip_sum(region) == 0 || pip_sum(region) == region.len() {
                Ok(())
            } else {
                Err(
                    PanelError::WrongNeighbourhoodSize {
                        pos,
                        required: pip_sum(region) as i32,
                        have: region.len() as i32,
                    },
                )
            },
        }
    }

    /// The rule of a lozange on a region: exactly two glyphs count as its colour.
    pub open spec fn lozange_rule(region: Seq<(i8, i8, Panel)>, x: int, y: int, color: Color) -> Result<
        (),
        PanelError,
    > {
        if colour_count(region, color) == 2 {
            Ok(())
        } else {
            Err(
                PanelError::LozangeCount {
                    pos: PanelLoc { x: x as usize, y: y as usize },
                    saw: colour_count(region, color) as i32,
                    color,
                },
            )
        }
    }

    /// The rule of a flower: `count` of the four cells around it are lit as it is.
    pub open spec fn petals_rule(grid: GridView, filled: bool, x: int, y: int, count: usize) -> Result<
        (),
        PanelError,
    > {
        if like_neighbours(grid, filled, x, y) == count {
            Ok(())
        } else {
            Err(
                PanelError::PetalCount {
                    pos: PanelLoc { x: x as usize, y: y as usize },
                    saw: like_neighbours(grid, filled, x, y) as usize,
                    required: count,
                },
            )
        }
    }

    /// Whether the panel, standing at `(x, y)` of a fully assigned grid, keeps the rule of
    /// its glyph, and if not, why. Regions are flood-filled without a horizon.
    #[verifier::opaque]
    pub open spec fn satisfied_spec(self, grid: GridView, x: int, y: int) -> Result<
        (),
        PanelError,
    > {
        match self.symbol {
            Symbol::Plain => Ok(()),
            Symbol::Pips { count: _, color } => Self::pips_rule(
                grid.region(None, x, y),
                x,
                y,
                color,
            ),
            Symbol::Line { diagonal, color } => match Self::line_error(
                grid,
                x,
                y,
                diagonal,
                color,
                grid.height as int,
            ) {
                Some(e) => Err(e),
                None => Ok(()),
            },
            Symbol::Lozange { color } => Self::lozange_rule(grid.region(None, x, y), x, y, color),
            Symbol::Petals { count } => Self::petals_rule(grid, self.filled, x, y, count),
        }
    }

    /// Whether the panel at `(x, y)` can still come to keep its rule, as far as a
    /// row-by-row scan that has reached `(upto_x, upto_y)` can tell. A cell that the scan
    /// has not reached passes. Pips fail when the pips of their colour on the whole grid
    /// add up to something other than zero, the cell is lit, and the region known so far
    /// already has more cells than that. A lozange fails when the region known so far
    /// holds more than two glyphs of its colour. A flower fails when more known cells
    /// around it are lit as it is than it has petals, or more the other way than it lacks
    /// petals. A line always passes.
    #[verifier::opaque]
    pub open spec fn satisfiable_spec(
        self,
        grid: GridView,
        x: int,
        y: int,
        upto_x: int,
        upto_y: int,
    ) -> bool {
        let region = grid.region(Some((upto_x, upto_y)), x, y);
        if !at_or_before(x, y, upto_x, upto_y) {
            true
        } else {
            match self.symbol {
                Symbol::Plain => true,
                Symbol::Pips { count: _, color } => {
                    let total = pip_total(grid, color, grid.height as int);
                    !(total != 0 && self.filled && total < region.len())
                },
                Symbol::Line { .. } => true,
                Symbol::Lozange { color } => colour_count(region, color) <= 2,
                Symbol::Petals { count } => {
                    &&& known_neighbours(grid, self.filled, true, upto_x, upto_y, x, y) <= count
                    &&& known_neighbours(grid, self.filled, false, upto_x, upto_y, x, y) <= 4
                        - count
                },
            }
        }
    }

    /// A flower that cannot come to keep its rule at one horizon cannot at any later one.
    pub proof fn lemma_petals_stay_infeasible(
        self,
        grid: GridView,
        x: int,
        y: int,
        upto_x: int,
        upto_y: int,
        later_x: int,
        later_y: int,
    )
        requires
            self.symbol is Petals,
            at_or_before(upto_x, upto_y, later_x, later_y),
            !self.satisfiable_spec(grid, x, y, upto_x, upto_y),
        ensures
            !self.satisfiable_spec(grid, x, y, later_x, later_y),
    {
        reveal(Panel::satisfiable_spec);
        assert forall|alike: bool, cx: int, cy: int|
            known_one(grid, self.filled, alike, upto_x, upto_y, cx, cy) <= #[trigger] known_one(
                grid,
                self.filled,
                alike,
                later_x,
                later_y,
                cx,
                cy,
            ) by {}
    }

    /// A test that fails for a plain cell, a line, a lozange or a flower is right to fail:
    /// however the cells that are not yet known come to be lit, the cell will break its
    /// rule.
    #[verifier::rlimit(50)]
    pub proof fn lemma_pruning_is_sound(
        self,
        grid: GridView,
        later: GridView,
        x: int,
        y: int,
        upto_x: int,
        upto_y: int,
    )
        requires
            completes(grid, later, upto_x, upto_y),
            grid.contains(x, y),
            self == grid.panel(x, y),
            !(self.symbol is Pips),
            !self.satisfiable_spec(grid, x, y, upto_x, upto_y),
        ensures
            later.panel(x, y) == self,
            self.satisfied_spec(later, x, y) is Err,
    {
        reveal(Panel::satisfiable_spec);
        reveal(Panel::satisfied_spec);
        let horizon = Some((upto_x, upto_y));
        assert(grid.known(horizon, x, y));
        match self.symbol {
            Symbol::Lozange { color } => {
                let early = grid.region(horizon, x, y);
                let full = later.region(None, x, y);
                grid.lemma_region(horizon, x, y);
                later.lemma_region(None, x, y);
                assert forall|i: int| 0 <= i < early.len() implies found_in(
                    full,
                    #[trigger] early[i],
                ) by {
                    let e = early[i];
                    lemma_stays_connected(grid, later, upto_x, upto_y, x, y, x + e.0, y + e.1);
                    assert(later.in_region(None, x, y, x + e.0, y + e.1));
                    assert(has_offset(full, (x + e.0) - x, (y + e.1) - y));
                    let j = choose|j: int|
                        0 <= j < full.len() && (#[trigger] full[j]).0 == (x + e.0) - x
                            && full[j].1 == (y + e.1) - y;
                    assert(full[j].2 == later.panel(x + full[j].0, y + full[j].1));
                }
                lemma_colour_count_grows(early, full, color);
            },
            _ => {},
        }
    }

    /// Tests whether the panel at `(x, y)` can still come to keep its rule when the scan
    /// has reached `(upto_x, upto_y)`.
    pub fn satisfiable<G: Gridlike>(
        self,
        x: usize,
        y: usize,
        upto_x: usize,
        upto_y: usize,
        grid: &G,
    ) -> (r: bool)
        requires
            grid.wf(),
            grid@.contains(x as int, y as int),
        ensures
            r == self.satisfiable_spec(grid@, x as int, y as int, upto_x as int, upto_y as int),
    {
        proof {
            reveal(Panel::satisfiable_spec);
            grid.lemma_wf();
        }
        if y > upto_y || (y == upto_y && x > upto_x) {
            return true;
        }
        match self.symbol {
            Symbol::Plain => true,
            Symbol::Pips { count: _, color } => {
                let region = grid.neighbourhood_upto(x, y, upto_x, upto_y);
                let total = pip_total_of(grid, color);
                !(total != 0 && self.filled && (total as i64) < region.contents.len() as i64)
            },
            Symbol::Line { .. } => true,
            Symbol::Lozange { color } => {
                let region = grid.neighbourhood_upto(x, y, upto_x, upto_y);
                count_colour(&region.contents, color) <= 2
            },
            Symbol::Petals { count } => {
                let mut on: usize = 0;
                let mut off: usize = 0;
                if x > 0 && known_at(grid, upto_x, upto_y, x - 1, y) {
                    if grid.lit_at(x - 1, y) == self.filled {
                        on += 1;
                    } else {
                        off += 1;
                    }
                }
                if x + 1 < grid.width() && known_at(grid, upto_x, upto_y, x + 1, y) {
                    if grid.lit_at(x + 1, y) == self.filled {
                        on += 1;
                    } else {
                        off += 1;
                    }
                }
                if y > 0 && known_at(grid, upto_x, upto_y, x, y - 1) {
                    if grid.lit_at(x, y - 1) == self.filled {
                        on += 1;
                    } else {
                        off += 1;
                    }
                }
                if y + 1 < grid.height() && known_at(grid, upto_x, upto_y, x, y + 1) {
                    if grid.lit_at(x, y + 1) == self.filled {
                        on += 1;
                    } else {
                        off += 1;
                    }
                }
                on <= count && count <= 4 && off <= 4 - count
            },
        }
    }

    /// Checks the rule of the panel's glyph for the panel standing at `(x, y)`.
    pub fn satisfied<G: Gridlike>(self, x: usize, y: usize, grid: &G) -> (r: Result<
        (),
        PanelError,
    >)
        requires
            grid.wf(),
            grid@.contains(x as int, y as int),
        ensures
            r == self.satisfied_spec(grid@, x as int, y as int),
    {
        proof {
            reveal(Panel::satisfied_spec);
            grid.lemma_wf();
        }
        match self.symbol {
            Symbol::Plain => Ok(()),
            Symbol::Pips { count: _, color } => {
                let region = grid.neighbourhood(x, y);
                proof {
                    grid@.lemma_region(None, x as int, y as int);
                }
                pips_verdict(&region.contents, x, y, color)
            },
            Symbol::Line { diagonal, color } => line_verdicts(grid, x, y, diagonal, color),
            Symbol::Lozange { color } => {
                let region = grid.neighbourhood(x, y);
                let saw = count_colour(&region.contents, color);
                if saw != 2 {
                    Err(PanelError::LozangeCount { pos: PanelLoc { x, y }, saw: saw as i32, color })
                } else {
                    Ok(())
                }
            },
            Symbol::Petals { count } => {
                let mut saw: usize = 0;
                if x > 0 && grid.lit_at(x - 1, y) == self.filled {
                    saw += 1;
                }
                if x + 1 < grid.width() && grid.lit_at(x + 1, y) == self.filled {
                    saw += 1;
                }
                if y > 0 && grid.lit_at(x, y - 1) == self.filled {
                    saw += 1;
                }
                if y + 1 < grid.height() && grid.lit_at(x, y + 1) == self.filled {
                    saw += 1;
                }
                if saw == count {
                    Ok(())
                } else {
                    Err(PanelError::PetalCount { pos: PanelLoc { x, y }, saw, required: count })
                }
            },
        }
    }
}

/// Once an entry clashes and none before it does, it stays the first clash however many
/// entries follow.
proof fn lemma_first_clash_found(entries: Seq<(i8, i8, Panel)>, color: Color, i: int, k: int)
    requires
        0 <= i < k <= entries.len(),
        first_clash(entries.take(i), color) is None,
        clashes(entries[i], color),
    ensures
        first_clash(entries.take(k), color) == Some(i),
    decreases k - i,
{
    let shorter = entries.take(k - 1);
    assert(entries.take(k).drop_last() =~= shorter);
    if k - 1 > i {
        lemma_first_clash_found(entries, color, i, k - 1);
    } else {
        assert(entries.take(k).last() == entries[i]);
    }
}

/// Applies the rule of pips to the entries of a region.
fn pips_verdict(entries: &Vec<(i8, i8, Panel)>, x: usize, y: usize, color: Color) -> (r: Result<
    (),
    PanelError,
>)
    requires
        entries@.len() <= 192,
        forall|i: int|
            0 <= i < entries@.len() ==> 0 <= x + (#[trigger] entries@[i]).0 <= usize::MAX && 0 <= y
                + entries@[i].1 <= usize::MAX,
    ensures
        r == Panel::pips_rule(entries@, x as int, y as int, color),
{
    let mut sum: i32 = 0;
    let mut i: usize = 0;
    while i < entries.len()
        invariant
            i <= entries@.len(),
            entries@.len() <= 192,
            forall|k: int|
                0 <= k < entries@.len() ==> 0 <= x + (#[trigger] entries@[k]).0 <= usize::MAX && 0
                    <= y + entries@[k].1 <= usize::MAX,
            first_clash(entries@.take(i as int), color) is None,
            sum == pip_sum(entries@.take(i as int)),
            -128 * i <= sum <= 127 * i,
        decreases entries@.len() - i,
    {
        let e = entries[i];
        proof {
            assert(entries@.take(i + 1).drop_last() =~= entries@.take(i as int));
            assert(entries@.take(i + 1).last() == e);
        }
        match e.2.symbol {
            Symbol::Pips { count, color: other_color } => {
                if !(color == other_color) {
                    proof {
                        lemma_first_clash_found(entries@, color, i as int, entries@.len() as int);
                        assert(entries@.take(entries@.len() as int) =~= entries@);
                    }
                    return Err(
                        PanelError::OverlappingPips {
                            pos: PanelLoc { x, y },
                            other_pos: PanelLoc {
                                x: (x as i128 + e.0 as i128) as usize,
                                y: (y as i128 + e.1 as i128) as usize,
                            },
                            color,
                            other_color,
                        },
                    );
                }
                sum = sum + count as i32;
            },
            _ => {},
        }
        i += 1;
    }
    proof {
        assert(entries@.take(i as int) =~= entries@);
    }
    let size = entries.len();
    if sum == 0 || sum as i64 == size as i64 {
        Ok(())
    } else {
        Err(
            PanelError::WrongNeighbourhoodSize {
                pos: PanelLoc { x, y },
                required: sum,
                have: size as i32,
            },
        )
    }
}

/// Counts the entries whose glyph counts towards a lozange of the colour.
pub fn count_colour(entries: &Vec<(i8, i8, Panel)>, color: Color) -> (n: usize)
    ensures
        n == colour_count(entries@, color),
{
    let ghost pred = counts_as_pred(color);
    let mut n: usize = 0;
    let mut i: usize = 0;
    proof {
        reveal(Seq::filter);
        assert(entries@.take(0).filter(pred) =~= Seq::empty());
    }
    while i < entries.len()
        invariant
            i <= entries@.len(),
            pred == counts_as_pred(color),
            n == entries@.take(i as int).filter(pred).len(),
            n <= i,
        decreases entries@.len() - i,
    {
        let e = entries[i];
        let hit = match e.2.symbol {
            Symbol::Plain => false,
            Symbol::Pips { color: c, .. } => c == color,
            Symbol::Line { color: c, .. } => c == color,
            Symbol::Lozange { color: c } => c == color,
            Symbol::Petals { count } => (color == Color::Yellow && count != 0) || (color
                == Color::Purple && count != 4),
        };
        proof {
            reveal(Seq::filter);
            assert(entries@.take(i + 1).drop_last() =~= entries@.take(i as int));
            assert(entries@.take(i + 1).last() == e);
            assert(hit == pred(e));
        }
        if hit {
            n += 1;
        }
        i += 1;
    }
    proof {
        assert(entries@.take(i as int) =~= entries@);
    }
    n
}

/// Holds the line at `(x, y)` against every other line of the grid, row by row.
fn line_verdicts<G: Gridlike>(
    grid: &G,
    x: usize,
    y: usize,
    diagonal: bool,
    color: Color,
) -> (r: Result<
    (),
    PanelError,
>)
    requires
        grid.wf(),
        grid@.contains(x as int, y as int),
    ensures
        r == (match Panel::line_error(
            grid@,
            x as int,
            y as int,
            diagonal,
            color,
            grid@.height as int,
        ) {
            Some(e) => Err::<(), PanelError>(e),
            None => Ok(()),
        }),
{
    proof {
        grid.lemma_wf();
    }
    let mine = grid.neighbourhood(x, y);
    let width = grid.width();
    let height = grid.height();
    let mut cy: usize = 0;
    while cy < height
        invariant
            grid.wf(),
            grid@.wf(),
            grid@.contains(x as int, y as int),
            width == grid@.width,
            height == grid@.height,
            cy <= height,
            mine.contents@ == grid@.region(None, x as int, y as int),
            Panel::line_error(grid@, x as int, y as int, diagonal, color, cy as int) is None,
        decreases height - cy,
    {
        let mut cx: usize = 0;
        while cx < width
            invariant
                grid.wf(),
                grid@.wf(),
                grid@.contains(x as int, y as int),
                width == grid@.width,
                height == grid@.height,
                cy < height,
                cx <= width,
                mine.contents@ == grid@.region(None, x as int, y as int),
                Panel::line_error(grid@, x as int, y as int, diagonal, color, cy as int) is None,
                Panel::line_error_in_row(
                    grid@,
                    x as int,
                    y as int,
                    diagonal,
                    color,
                    cy as int,
                    cx as int,
                ) is None,
            decreases width - cx,
        {
            let verdict = line_verdict_at(grid, &mine, x, y, diagonal, color, cx, cy);
            if let Some(e) = verdict {
                proof {
                    lemma_line_error_found(
                        grid@,
                        x as int,
                        y as int,
                        diagonal,
                        color,
                        cx as int,
                        cy as int,
                        width as int,
                        height as int,
                    );
                }
                return Err(e);
            }
            cx += 1;
        }
        cy += 1;
    }
    Ok(())
}

/// A verdict that no earlier cell precedes is the first verdict of the whole scan.
proof fn lemma_line_error_found(
    grid: GridView,
    x: int,
    y: int,
    diagonal: bool,
    color: Color,
    cx: int,
    cy: int,
    cols: int,
    rows: int,
)
    requires
        0 <= cx < cols <= grid.width,
        0 <= cy < rows <= grid.height,
        Panel::line_error(grid, x, y, diagonal, color, cy) is None,
        Panel::line_error_in_row(grid, x, y, diagonal, color, cy, cx) is None,
        Panel::line_verdict(grid, x, y, diagonal, color, cx, cy) is Some,
    ensures
        Panel::line_error_in_row(grid, x, y, diagonal, color, cy, cols) == Panel::line_verdict(
            grid,
            x,
            y,
            diagonal,
            color,
            cx,
            cy,
        ),
        cols == grid.width ==> Panel::line_error(grid, x, y, diagonal, color, rows)
            == Panel::line_verdict(grid, x, y, diagonal, color, cx, cy),
    decreases rows - cy, cols - cx,
{
    if cols > cx + 1 {
        lemma_line_error_found(grid, x, y, diagonal, color, cx, cy, cols - 1, cy + 1);
    }
    if cols == grid.width && rows > cy + 1 {
        lemma_line_error_found(grid, x, y, diagonal, color, cx, cy, cols, rows - 1);
    }
}

/// What the line at `(cx, cy)`, if there is one, has against the line at `(x, y)`.
fn line_verdict_at<G: Gridlike>(
    grid: &G,
    mine: &Neighbourhood,
    x: usize,
    y: usize,
    diagonal: bool,
    color: Color,
    cx: usize,
    cy: usize,
) -> (r: Option<PanelError>)
    requires
        grid.wf(),
        grid@.contains(x as int, y as int),
        grid@.contains(cx as int, cy as int),
        mine.contents@ == grid@.region(None, x as int, y as int),
    ensures
        r == Panel::line_verdict(grid@, x as int, y as int, diagonal, color, cx as int, cy as int),
{
    proof {
        grid.lemma_wf();
    }
    if cx == x && cy == y {
        return None;
    }
    match grid.panel_at(cx, cy).symbol {
        Symbol::Line { diagonal: other_diagonal, color: other_color } => {
            let other = grid.neighbourhood(cx, cy);
            let same = if diagonal || other_diagonal {
                mine.same_shape_rotated(&other)
            } else {
                mine.same_shape(&other)
            };
            let pos = PanelLoc { x, y };
            let other_pos = PanelLoc { x: cx, y: cy };
            if color == other_color && !same {
                Some(PanelError::LineNeighbourhoodWrongShape { pos, other_pos })
            } else if !(color == other_color) && same {
                Some(PanelError::DuplicateLineNeighbourhoodShape { pos, other_pos })
            } else {
                None
            }
        },
        _ => None,
    }
}

/// Whether the scan has reached the cell or its lit state is fixed.
fn known_at<G: Gridlike>(grid: &G, upto_x: usize, upto_y: usize, x: usize, y: usize) -> (r: bool)
    requires
        grid.wf(),
        grid@.contains(x as int, y as int),
    ensures
        r == grid@.known(Some((upto_x as int, upto_y as int)), x as int, y as int),
{
    proof {
        grid.lemma_wf();
    }
    y < upto_y || (y == upto_y && x <= upto_x) || grid.fixed_at(x, y)
}

/// Adds up the pips of a colour over the whole grid.
pub fn pip_total_of<G: Gridlike>(grid: &G, color: Color) -> (total: i32)
    requires
        grid.wf(),
    ensures
        total == pip_total(grid@, color, grid@.height as int),
{
    proof {
        grid.lemma_wf();
    }
    let width = grid.width();
    let height = grid.height();
    let mut total: i32 = 0;
    let mut y: usize = 0;
    while y < height
        invariant
            grid.wf(),
            grid@.wf(),
            width == grid@.width,
            height == grid@.height,
            y <= height,
            total == pip_total(grid@, color, y as int),
            -2048 * y <= total <= 2048 * y,
        decreases height - y,
    {
        let mut row: i32 = 0;
        let mut x: usize = 0;
        while x < width
            invariant
                grid.wf(),
                grid@.wf(),
                width == grid@.width,
                height == grid@.height,
                y < height,
                x <= width,
                row == pip_total_in_row(grid@, color, y as int, x as int),
                -128 * x <= row <= 128 * x,
            decreases width - x,
        {
            match grid.panel_at(x, y).symbol {
                Symbol::Pips { count, color: c } => {
                    if c == color {
                        row = row + count as i32;
                    }
                },
                _ => {},
            }
            x += 1;
        }
        total = total + row;
        y += 1;
    }
    total
}

} // verus!
