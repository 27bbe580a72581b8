//! The mathematical model of a grid: its size and the panel of every cell.

use vstd::prelude::*;
use crate::panel::Panel;
use crate::symbol::Symbol;

verus! {

/// What a grid is, apart from how it is stored.
pub struct GridView {
    pub width: nat,
    pub height: nat,
    /// The panel of each cell, keyed by `(x, y)`.
    pub cells: Map<(int, int), Panel>,
}

impl GridView {
    /// Whether `(x, y)` is a cell of the grid.
    pub open spec fn contains(self, x: int, y: int) -> bool {
        0 <= x < self.width && 0 <= y < self.height
    }

    /// The grid fits the storage limits and `cells` holds exactly the grid's cells.
    pub open spec fn wf(self) -> bool {
        &&& self.width <= 16
        &&& self.height <= 12
        &&& forall|p: (int, int)| #[trigger] self.cells.dom().contains(p) <==> self.contains(p.0, p.1)
    }

    /// The panel of the cell `(x, y)`.
    pub open spec fn panel(self, x: int, y: int) -> Panel {
        self.cells[(x, y)]
    }

    /// Whether the cell `(x, y)` is lit.
    pub open spec fn lit(self, x: int, y: int) -> bool {
        self.cells[(x, y)].filled
    }

    /// Whether the lit state of the cell `(x, y)` is given.
    pub open spec fn fixed(self, x: int, y: int) -> bool {
        self.cells[(x, y)].fixed
    }

    /// The glyph of the cell `(x, y)`.
    pub open spec fn symbol(self, x: int, y: int) -> Symbol {
        self.cells[(x, y)].symbol
    }

    /// The grid of the given size whose cells are all blank.
    pub open spec fn empty(width: nat, height: nat) -> GridView {
        GridView {
            width,
            height,
            cells: Map::new(
                |p: (int, int)| 0 <= p.0 < width && 0 <= p.1 < height,
                |p: (int, int)| Panel::blank(),
            ),
        }
    }

    /// The grid with the panel of `(x, y)` replaced.
    pub open spec fn with_panel(self, x: int, y: int, panel: Panel) -> GridView {
        GridView { cells: self.cells.insert((x, y), panel), ..self }
    }

    /// The grid with the lit state of `(x, y)` replaced.
    pub open spec fn with_lit(self, x: int, y: int, lit: bool) -> GridView {
        self.with_panel(x, y, Panel { filled: lit, ..self.panel(x, y) })
    }

    /// The grid with the cell `(x, y)` fixed or freed.
    pub open spec fn with_fixed(self, x: int, y: int, fixed: bool) -> GridView {
        self.with_panel(x, y, Panel { fixed, ..self.panel(x, y) })
    }

    /// The grid with the glyph of `(x, y)` replaced.
    pub open spec fn with_symbol(self, x: int, y: int, symbol: Symbol) -> GridView {
        self.with_panel(x, y, Panel { symbol, ..self.panel(x, y) })
    }

    /// The grid with every free cell unlit; fixed cells keep their state.
    pub open spec fn cleared(self) -> GridView {
        GridView {
            cells: Map::new(
                |p: (int, int)| self.contains(p.0, p.1),
                |p: (int, int)|
                    Panel { filled: self.cells[p].fixed && self.cells[p].filled, ..self.cells[p] },
            ),
            ..self
        }
    }

    /// Where the cell `(x, y)` goes when the grid is turned: a square grid turns by a
    /// quarter, any other grid by a half, so that the size stays as it is.
    pub open spec fn turned_cell(self, x: int, y: int) -> (int, int) {
        if self.width == self.height {
            (self.width - 1 - y, x)
        } else {
            (self.width - 1 - x, self.height - 1 - y)
        }
    }

    /// The cell that arrives at `(x, y)` when the grid is turned.
    pub open spec fn turned_source(self, x: int, y: int) -> (int, int) {
        if self.width == self.height {
            (y, self.width - 1 - x)
        } else {
            (self.width - 1 - x, self.height - 1 - y)
        }
    }

    /// The turned grid: every panel moves to its turned cell.
    pub open spec fn turned(self) -> GridView {
        GridView {
            cells: Map::new(
                |p: (int, int)| self.contains(p.0, p.1),
                |p: (int, int)| self.cells[self.turned_source(p.0, p.1)],
            ),
            ..self
        }
    }

    /// A bound on the number of cells from `(x, y)` on in a row-by-row scan; it falls with
    /// every step of the scan.
    pub open spec fn rank(self, x: int, y: int) -> int {
        if y >= self.height {
            0
        } else {
            (self.height - y) * 17 + (if x >= self.width {
                0
            } else {
                self.width - x
            })
        }
    }

    /// The cell that a scan at `(x, y)` takes next: `(x, y)` itself, or the start of
    /// the next row when `x` is past the end of the row.
    pub open spec fn cursor(self, x: int, y: int) -> (int, int) {
        if x >= self.width {
            (0, y + 1)
        } else {
            (x, y)
        }
    }

    /// Two grids that differ at most in the lit state of free cells.
    pub open spec fn same_puzzle(self, other: GridView) -> bool {
        &&& self.width == other.width
        &&& self.height == other.height
        &&& forall|x: int, y: int| #[trigger]
            self.contains(x, y) ==> {
                &&& self.fixed(x, y) == other.fixed(x, y)
                &&& self.symbol(x, y) == other.symbol(x, y)
                &&& self.fixed(x, y) ==> self.lit(x, y) == other.lit(x, y)
            }
    }

    /// The panel at the turned cell of the turned grid is the panel that was turned.
    pub proof fn lemma_turned_panel(self, x: int, y: int)
        requires
            self.wf(),
            self.contains(x, y),
        ensures
            self.turned().wf(),
            self.turned().contains(self.turned_cell(x, y).0, self.turned_cell(x, y).1),
            self.turned().panel(self.turned_cell(x, y).0, self.turned_cell(x, y).1) == self.panel(
                x,
                y,
            ),
    {
    }

    /// Four quarter turns of a square grid, and two half turns of any other grid, give
    /// the grid back: size, lit and fixed state and every glyph.
    pub proof fn lemma_turns_compose_to_identity(self)
        requires
            self.wf(),
        ensures
            self.width == self.height ==> self.turned().turned().turned().turned() == self,
            self.width != self.height ==> self.turned().turned() == self,
    {
        if self.width == self.height {
            let t4 = self.turned().turned().turned().turned();
            assert(t4.cells =~= self.cells);
        } else {
            let t2 = self.turned().turned();
            assert(t2.cells =~= self.cells);
        }
    }
}

} // verus!
