//! The grid: one bitmask per row for the lit and the fixed cells, and a sparse list of
//! glyphs keyed by cell.

use vstd::prelude::*;
use crate::bits::{bit, get_bit, lemma_bit_and, lemma_bit_zero, set_bit, MAX_COLS, MAX_ROWS};
use crate::model::GridView;
use crate::neighbourhood::Neighbourhood;
use crate::panel::Panel;
use crate::symbol::Symbol;

verus! {

/// A grid of at most `MAX_COLS` by `MAX_ROWS` cells.
#[derive(Debug)]
pub struct Grid {
    width: usize,
    height: usize,
    lit: [u16; 12],
    fixed: [u16; 12],
    symbols: Vec<(usize, usize, Symbol)>,
}

/// Whether some entry of the list is keyed by `(x, y)`.
pub open spec fn has_entry(symbols: Seq<(usize, usize, Symbol)>, x: int, y: int) -> bool {
    exists|i: int| 0 <= i < symbols.len() && (#[trigger] symbols[i]).0 == x && symbols[i].1 == y
}

/// The glyph that the list holds for `(x, y)`; `Plain` where it holds none.
pub open spec fn glyph_at(symbols: Seq<(usize, usize, Symbol)>, x: int, y: int) -> Symbol {
    if has_entry(symbols, x, y) {
        let i = choose|i: int|
            0 <= i < symbols.len() && (#[trigger] symbols[i]).0 == x && symbols[i].1 == y;
        symbols[i].2
    } else {
        Symbol::Plain
    }
}

/// No two entries of the list are keyed by the same cell.
pub open spec fn distinct_keys(symbols: Seq<(usize, usize, Symbol)>) -> bool {
    forall|i: int, j: int|
        0 <= i < symbols.len() && 0 <= j < symbols.len() && (#[trigger] symbols[i]).0 == (
        #[trigger] symbols[j]).0 && symbols[i].1 == symbols[j].1 ==> i == j
}

/// With distinct keys, the glyph found for the cell of an entry is the glyph of that entry.
pub proof fn lemma_glyph_present(symbols: Seq<(usize, usize, Symbol)>, i: int)
    requires
        distinct_keys(symbols),
        0 <= i < symbols.len(),
    ensures
        has_entry(symbols, symbols[i].0 as int, symbols[i].1 as int),
        glyph_at(symbols, symbols[i].0 as int, symbols[i].1 as int) == symbols[i].2,
{
}

/// Whether `after` holds the glyphs of `before`, but for the cell `(x, y)`, which has
/// the glyph `symbol`; and holds no cell twice.
pub open spec fn glyph_set(
    before: Seq<(usize, usize, Symbol)>,
    after: Seq<(usize, usize, Symbol)>,
    x: int,
    y: int,
    symbol: Symbol,
) -> bool {
    &&& distinct_keys(after)
    &&& forall|px: int, py: int| #[trigger]
        glyph_at(after, px, py) == (if px == x && py == y {
            symbol
        } else {
            glyph_at(before, px, py)
        })
}

/// Where each entry of `after` is the entry of `before` at the place `from` names, and
/// `from` names each place at most once, `after` holds no cell twice, and a cell has in
/// `after` the glyph it has in `before` if its entry was kept.
proof fn lemma_glyphs_kept(
    before: Seq<(usize, usize, Symbol)>,
    after: Seq<(usize, usize, Symbol)>,
    from: spec_fn(int) -> int,
    px: int,
    py: int,
)
    requires
        distinct_keys(before),
        forall|k: int|
            0 <= k < after.len() ==> 0 <= #[trigger] from(k) < before.len() && after[k].0
                == before[from(k)].0 && after[k].1 == before[from(k)].1,
        forall|a: int, b: int|
            0 <= a < after.len() && 0 <= b < after.len() && #[trigger] from(a) == #[trigger] from(
                b,
            ) ==> a == b,
    ensures
        distinct_keys(after),
        has_entry(after, px, py) ==> has_entry(before, px, py),
{
    assert forall|a: int, b: int|
        0 <= a < after.len() && 0 <= b < after.len() && (#[trigger] after[a]).0 == (
        #[trigger] after[b]).0 && after[a].1 == after[b].1 implies a == b by {
        assert(before[from(a)].0 == before[from(b)].0);
        assert(before[from(a)].1 == before[from(b)].1);
    }
    if has_entry(after, px, py) {
        let k = choose|k: int|
            0 <= k < after.len() && (#[trigger] after[k]).0 == px && after[k].1 == py;
        assert(before[from(k)].0 == px && before[from(k)].1 == py);
    }
}

/// Taking the entry of a cell away leaves the cell without a glyph and the others as
/// they were.
proof fn lemma_glyphs_after_remove(before: Seq<(usize, usize, Symbol)>, i: int)
    requires
        distinct_keys(before),
        0 <= i < before.len(),
    ensures
        glyph_set(
            before,
            before.remove(i),
            before[i].0 as int,
            before[i].1 as int,
            Symbol::Plain,
        ),
{
    let after = before.remove(i);
    let from = |k: int|
        if k < i {
            k
        } else {
            k + 1
        };
    assert forall|px: int, py: int| #[trigger]
        glyph_at(after, px, py) == (if px == before[i].0 && py == before[i].1 {
            Symbol::Plain
        } else {
            glyph_at(before, px, py)
        }) by {
        lemma_glyphs_kept(before, after, from, px, py);
        if px == before[i].0 && py == before[i].1 {
            if has_entry(after, px, py) {
                let k = choose|k: int|
                    0 <= k < after.len() && (#[trigger] after[k]).0 == px && after[k].1 == py;
                assert(after[k] == before[from(k)]);
            }
        } else if has_entry(before, px, py) {
            let j = choose|j: int|
                0 <= j < before.len() && (#[trigger] before[j]).0 == px && before[j].1 == py;
            let j1 = if j < i {
                j
            } else {
                j - 1
            };
            assert(after[j1] == before[j]);
            lemma_glyph_present(before, j);
            lemma_glyph_present(after, j1);
        }
    }
    lemma_glyphs_kept(before, after, from, 0, 0);
}

/// Replacing the glyph in the entry of a cell changes the glyph of that cell only.
proof fn lemma_glyphs_after_update(before: Seq<(usize, usize, Symbol)>, i: int, symbol: Symbol)
    requires
        distinct_keys(before),
        0 <= i < before.len(),
    ensures
        glyph_set(
            before,
            before.update(i, (before[i].0, before[i].1, symbol)),
            before[i].0 as int,
            before[i].1 as int,
            symbol,
        ),
{
    let after = before.update(i, (before[i].0, before[i].1, symbol));
    let from = |k: int| k;
    assert forall|px: int, py: int| #[trigger]
        glyph_at(after, px, py) == (if px == before[i].0 && py == before[i].1 {
            symbol
        } else {
            glyph_at(before, px, py)
        }) by {
        lemma_glyphs_kept(before, after, from, px, py);
        if px == before[i].0 && py == before[i].1 {
            lemma_glyph_present(after, i);
        } else if has_entry(before, px, py) {
            let j = choose|j: int|
                0 <= j < before.len() && (#[trigger] before[j]).0 == px && before[j].1 == py;
            assert(after[j] == before[j]);
            lemma_glyph_present(before, j);
            lemma_glyph_present(after, j);
        }
    }
    lemma_glyphs_kept(before, after, from, 0, 0);
}

/// A new entry for a cell that had none gives that cell its glyph and leaves the others
/// as they were.
proof fn lemma_glyphs_after_push(
    before: Seq<(usize, usize, Symbol)>,
    x: usize,
    y: usize,
    symbol: Symbol,
)
    requires
        distinct_keys(before),
        !has_entry(before, x as int, y as int),
    ensures
        glyph_set(before, before.push((x, y, symbol)), x as int, y as int, symbol),
{
    let after = before.push((x, y, symbol));
    let n = before.len() as int;
    assert(forall|k: int| 0 <= k < n ==> #[trigger] after[k] == before[k]);
    assert(after[n] == (x, y, symbol));
    assert(distinct_keys(after)) by {
        assert forall|a: int, b: int|
            0 <= a < after.len() && 0 <= b < after.len() && (#[trigger] after[a]).0 == (
            #[trigger] after[b]).0 && after[a].1 == after[b].1 implies a == b by {
            if a < n {
                assert(before[a] == after[a]);
            }
            if b < n {
                assert(before[b] == after[b]);
            }
        }
    }
    assert forall|px: int, py: int| #[trigger]
        glyph_at(after, px, py) == (if px == x && py == y {
            symbol
        } else {
            glyph_at(before, px, py)
        }) by {
        if px == x && py == y {
            lemma_glyph_present(after, n);
        } else if has_entry(before, px, py) {
            let j = choose|j: int|
                0 <= j < before.len() && (#[trigger] before[j]).0 == px && before[j].1 == py;
            assert(after[j] == before[j]);
            lemma_glyph_present(before, j);
            lemma_glyph_present(after, j);
        } else if has_entry(after, px, py) {
            let k = choose|k: int|
                0 <= k < after.len() && (#[trigger] after[k]).0 == px && after[k].1 == py;
            assert(before[k] == after[k]);
        }
    }
}

/// What the rules and the search ask of a grid.
pub trait Gridlike: Sized {
    /// The model of the grid.
    spec fn view(&self) -> GridView;

    /// Whether the grid is in order as stored.
    spec fn wf(&self) -> bool;

    /// The model of a grid that is in order is well formed.
    proof fn lemma_wf(&self)
        requires
            self.wf(),
        ensures
            self@.wf(),
    ;

    /// Creates an empty grid of the given size.
    fn new(width: usize, height: usize) -> (g: Self)
        requires
            width <= MAX_COLS,
            height <= MAX_ROWS,
        ensures
            g.wf(),
            g@ == GridView::empty(width as nat, height as nat),
    ;

    /// The number of columns.
    fn width(&self) -> (w: usize)
        ensures
            w == self@.width,
    ;

    /// The number of rows.
    fn height(&self) -> (h: usize)
        ensures
            h == self@.height,
    ;

    /// Whether the cell is lit.
    fn lit_at(&self, x: usize, y: usize) -> (lit: bool)
        requires
            self.wf(),
            self@.contains(x as int, y as int),
        ensures
            lit == self@.lit(x as int, y as int),
    ;

    /// Sets the lit state of the cell.
    fn set_lit_at(&mut self, x: usize, y: usize, lit: bool)
        requires
            old(self).wf(),
            old(self)@.contains(x as int, y as int),
        ensures
            final(self).wf(),
            final(self)@ == old(self)@.with_lit(x as int, y as int, lit),
    ;

    /// Flips the lit state of the cell.
    fn toggle_lit_at(&mut self, x: usize, y: usize)
        requires
            old(self).wf(),
            old(self)@.contains(x as int, y as int),
        ensures
            final(self).wf(),
            final(self)@ == old(self)@.with_lit(
                x as int,
                y as int,
                !old(self)@.lit(x as int, y as int),
            ),
    ;

    /// Whether the lit state of the cell is given.
    fn fixed_at(&self, x: usize, y: usize) -> (fixed: bool)
        requires
            self.wf(),
            self@.contains(x as int, y as int),
        ensures
            fixed == self@.fixed(x as int, y as int),
    ;

    /// Marks the cell as fixed or free.
    fn set_fixed_at(&mut self, x: usize, y: usize, fixed: bool)
        requires
            old(self).wf(),
            old(self)@.contains(x as int, y as int),
        ensures
            final(self).wf(),
            final(self)@ == old(self)@.with_fixed(x as int, y as int, fixed),
    ;

    /// Flips whether the cell is fixed.
    fn toggle_fixed_at(&mut self, x: usize, y: usize)
        requires
            old(self).wf(),
            old(self)@.contains(x as int, y as int),
        ensures
            final(self).wf(),
            final(self)@ == old(self)@.with_fixed(
                x as int,
                y as int,
                !old(self)@.fixed(x as int, y as int),
            ),
    ;

    /// The glyph of the cell, if it has one.
    fn symbol_at(&self, x: usize, y: usize) -> (s: Option<Symbol>)
        requires
            self.wf(),
        ensures
            s == (if self@.contains(x as int, y as int) && self@.symbol(x as int, y as int)
                != Symbol::Plain {
                Some(self@.symbol(x as int, y as int))
            } else {
                None
            }),
    ;

    /// The whole state of the cell.
    fn panel_at(&self, x: usize, y: usize) -> (p: Panel)
        requires
            self.wf(),
            self@.contains(x as int, y as int),
        ensures
            p == self@.panel(x as int, y as int),
    ;

    /// Gives the cell a glyph; `Plain` takes the glyph away.
    fn set_symbol_at(&mut self, x: usize, y: usize, symbol: Symbol)
        requires
            old(self).wf(),
            old(self)@.contains(x as int, y as int),
        ensures
            final(self).wf(),
            final(self)@ == old(self)@.with_symbol(x as int, y as int, symbol),
    ;

    /// The glyphs of the grid, each with its cell.
    fn symbols(&self) -> (v: Vec<(usize, usize, Symbol)>)
        requires
            self.wf(),
        ensures
            distinct_keys(v@),
            forall|i: int|
                0 <= i < v@.len() ==> {
                    &&& self@.contains((#[trigger] v@[i]).0 as int, v@[i].1 as int)
                    &&& v@[i].2 != Symbol::Plain
                    &&& v@[i].2 == self@.symbol(v@[i].0 as int, v@[i].1 as int)
                },
            forall|x: int, y: int|
                self@.contains(x, y) && self@.symbol(x, y) != Symbol::Plain ==> has_entry(
                    v@,
                    x,
                    y,
                ),
    ;

    /// Unlights every free cell; fixed cells keep their lit state.
    fn reset(&mut self)
        requires
            old(self).wf(),
        ensures
            final(self).wf(),
            final(self)@ == old(self)@.cleared(),
    ;

    /// Turns the grid: a square grid by a quarter turn, any other grid by a half turn,
    /// so that the size stays as it is.
    fn rotate(&mut self)
        requires
            old(self).wf(),
        ensures
            final(self).wf(),
            final(self)@ == old(self)@.turned(),
    ;

    /// The largest connected set of cells that holds `(x, y)` and whose cells are all lit
    /// as `(x, y)` is, as entries ordered by `(dx, dy)`.
    fn neighbourhood(&self, x: usize, y: usize) -> (n: Neighbourhood)
        requires
            self.wf(),
            self@.contains(x as int, y as int),
        ensures
            n.offset_x == x,
            n.offset_y == y,
            n.contents@ == self@.region(None, x as int, y as int),
            n.contents@.len() <= 192,
            self@.entries_sound(n.contents@, None, x as int, y as int),
            GridView::strictly_rising(n.contents@),
    ;

    /// The region of `(x, y)` as far as a row-by-row scan that has reached
    /// `(upto_x, upto_y)` knows it: the fill neither holds nor passes through a free cell
    /// that the scan has not reached, and a seed that the scan has not reached has an
    /// empty region.
    fn neighbourhood_upto(&self, x: usize, y: usize, upto_x: usize, upto_y: usize) -> (n:
        Neighbourhood)
        requires
            self.wf(),
            self@.contains(x as int, y as int),
        ensures
            n.offset_x == x,
            n.offset_y == y,
            n.contents@ == self@.region(Some((upto_x as int, upto_y as int)), x as int, y as int),
            n.contents@.len() <= 192,
            self@.entries_sound(
                n.contents@,
                Some((upto_x as int, upto_y as int)),
                x as int,
                y as int,
            ),
            GridView::strictly_rising(n.contents@),
    ;
}

impl Gridlike for Grid {
    closed spec fn view(&self) -> GridView {
        GridView {
            width: self.width as nat,
            height: self.height as nat,
            cells: Map::new(
                |p: (int, int)| 0 <= p.0 < self.width && 0 <= p.1 < self.height,
                |p: (int, int)|
                    Panel {
                        filled: bit(self.lit[p.1], p.0),
                        fixed: bit(self.fixed[p.1], p.0),
                        symbol: glyph_at(self.symbols@, p.0, p.1),
                    },
            ),
        }
    }

    /// A grid is in order when its storage invariant holds; its model is then well
    /// formed too.
    open spec fn wf(&self) -> bool {
        self.inv() && self@.wf()
    }

    proof fn lemma_wf(&self) {
    }

    fn new(width: usize, height: usize) -> (g: Grid) {
        let g = Grid {
            width,
            height,
            lit: [0u16, 0u16, 0u16, 0u16, 0u16, 0u16, 0u16, 0u16, 0u16, 0u16, 0u16, 0u16],
            fixed: [0u16, 0u16, 0u16, 0u16, 0u16, 0u16, 0u16, 0u16, 0u16, 0u16, 0u16, 0u16],
            symbols: Vec::new(),
        };
        proof {
            assert forall|p: (int, int)| 0 <= p.0 < width && 0 <= p.1 < height implies (
            #[trigger] g@.cells[p]) == Panel::blank() by {
                lemma_bit_zero(p.0);
            }
            assert(g@.cells =~= GridView::empty(width as nat, height as nat).cells);
        }
        g
    }

    fn width(&self) -> (w: usize) {
        self.width
    }

    fn height(&self) -> (h: usize) {
        self.height
    }

    fn lit_at(&self, x: usize, y: usize) -> (lit: bool) {
        get_bit(self.lit[y], x)
    }

    fn set_lit_at(&mut self, x: usize, y: usize, lit: bool) {
        let row = set_bit(self.lit[y], x, lit);
        self.lit[y] = row;
        proof {
            assert(self@.cells =~= old(self)@.with_lit(x as int, y as int, lit).cells);
        }
    }

    fn toggle_lit_at(&mut self, x: usize, y: usize) {
        let lit = self.lit_at(x, y);
        self.set_lit_at(x, y, !lit);
    }

    fn fixed_at(&self, x: usize, y: usize) -> (fixed: bool) {
        get_bit(self.fixed[y], x)
    }

    fn set_fixed_at(&mut self, x: usize, y: usize, fixed: bool) {
        let row = set_bit(self.fixed[y], x, fixed);
        self.fixed[y] = row;
        proof {
            assert(self@.cells =~= old(self)@.with_fixed(x as int, y as int, fixed).cells);
        }
    }

    fn toggle_fixed_at(&mut self, x: usize, y: usize) {
        let fixed = self.fixed_at(x, y);
        self.set_fixed_at(x, y, !fixed);
    }

    fn symbol_at(&self, x: usize, y: usize) -> (s: Option<Symbol>) {
        match self.find_entry(x, y) {
            Some(i) => {
                proof {
                    lemma_glyph_present(self.symbols@, i as int);
                }
                Some(self.symbols[i].2)
            },
            None => None,
        }
    }

    fn panel_at(&self, x: usize, y: usize) -> (p: Panel) {
        let symbol = match self.symbol_at(x, y) {
            Some(s) => s,
            None => Symbol::Plain,
        };
        Panel { filled: self.lit_at(x, y), fixed: self.fixed_at(x, y), symbol }
    }

    fn set_symbol_at(&mut self, x: usize, y: usize, symbol: Symbol) {
        let found = self.find_entry(x, y);
        let ghost before = self.symbols@;
        let plain = match symbol {
            Symbol::Plain => true,
            _ => false,
        };
        match found {
            Some(i) => {
                if plain {
                    self.symbols.remove(i);
                    proof {
                        lemma_glyphs_after_remove(before, i as int);
                    }
                } else {
                    self.symbols[i] = (x, y, symbol);
                    proof {
                        lemma_glyphs_after_update(before, i as int, symbol);
                    }
                }
            },
            None => {
                if !plain {
                    self.symbols.push((x, y, symbol));
                    proof {
                        lemma_glyphs_after_push(before, x, y, symbol);
                    }
                }
            },
        }
        proof {
            assert(self@.cells =~= old(self)@.with_symbol(x as int, y as int, symbol).cells);
        }
    }

    fn symbols(&self) -> (v: Vec<(usize, usize, Symbol)>) {
        let v = self.copy_symbols();
        proof {
            assert forall|i: int| 0 <= i < v@.len() implies (#[trigger] v@[i]).2 == self@.symbol(
                v@[i].0 as int,
                v@[i].1 as int,
            ) by {
                lemma_glyph_present(self.symbols@, i);
            }
        }
        v
    }

    fn reset(&mut self) {
        let mut y: usize = 0;
        while y < self.height
            invariant
                y <= self.height,
                self.inv(),
                self.width == old(self).width,
                self.height == old(self).height,
                self.fixed == old(self).fixed,
                self.symbols == old(self).symbols,
                forall|r: int| y <= r < 12 ==> self.lit[r] == old(self).lit[r],
                forall|r: int| 0 <= r < y ==> self.lit[r] == old(self).lit[r] & old(self).fixed[r],
            decreases self.height - y,
        {
            let row = self.lit[y] & self.fixed[y];
            self.lit[y] = row;
            y += 1;
        }
        proof {
            assert forall|p: (int, int)| 0 <= p.0 < self.width && 0 <= p.1 < self.height implies (
            #[trigger] self@.cells[p]) == old(self)@.cleared().cells[p] by {
                lemma_bit_and(old(self).lit[p.1], old(self).fixed[p.1], p.0);
            }
            assert(self@.cells =~= old(self)@.cleared().cells);
        }
    }

    #[verifier::rlimit(50)]
    fn rotate(&mut self) {
        let width = self.width;
        let height = self.height;
        let square = width == height;
        let mut rv = Grid::new(width, height);
        let mut y: usize = 0;
        while y < height
            invariant
                y <= height,
                self.wf(),
                rv.wf(),
                width == self@.width,
                height == self@.height,
                square == (width == height),
                rv@.width == width,
                rv@.height == height,
                forall|p: (int, int)|
                    rv@.contains(p.0, p.1) ==> (#[trigger] rv@.cells[p]) == (if self@.turned_source(
                        p.0,
                        p.1,
                    ).1 < y {
                        self@.cells[self@.turned_source(p.0, p.1)]
                    } else {
                        Panel::blank()
                    }),
            decreases height - y,
        {
            let mut x: usize = 0;
            while x < width
                invariant
                    x <= width,
                    y < height,
                    self.wf(),
                    rv.wf(),
                    width == self@.width,
                    height == self@.height,
                    square == (width == height),
                    rv@.width == width,
                    rv@.height == height,
                    forall|p: (int, int)|
                        rv@.contains(p.0, p.1) ==> (#[trigger] rv@.cells[p]) == (if self@.turned_source(
                            p.0,
                            p.1,
                        ).1 < y || (self@.turned_source(p.0, p.1).1 == y && self@.turned_source(
                            p.0,
                            p.1,
                        ).0 < x) {
                            self@.cells[self@.turned_source(p.0, p.1)]
                        } else {
                            Panel::blank()
                        }),
                decreases width - x,
            {
                let panel = self.panel_at(x, y);
                let (nx, ny) = if square {
                    (width - 1 - y, x)
                } else {
                    (width - 1 - x, height - 1 - y)
                };
                let ghost before = rv@;
                rv.set_lit_at(nx, ny, panel.filled);
                rv.set_fixed_at(nx, ny, panel.fixed);
                rv.set_symbol_at(nx, ny, panel.symbol);
                proof {
                    assert(rv@.cells =~= before.with_panel(nx as int, ny as int, panel).cells);
                }
                x += 1;
            }
            y += 1;
        }
        proof {
            assert(rv@.cells =~= self@.turned().cells);
        }
        *self = rv;
    }

    fn neighbourhood(&self, x: usize, y: usize) -> (n: Neighbourhood) {
        self.fill(false, 0, 0, x, y)
    }

    fn neighbourhood_upto(&self, x: usize, y: usize, upto_x: usize, upto_y: usize) -> (n:
        Neighbourhood) {
        self.fill(true, upto_x, upto_y, x, y)
    }
}

impl Grid {
    /// The storage invariant: the size is within the limits, and the glyph list holds at
    /// most one entry per cell, each for a cell of the grid and none of them `Plain`.
    pub closed spec fn inv(&self) -> bool {
        &&& self.width <= MAX_COLS
        &&& self.height <= MAX_ROWS
        &&& distinct_keys(self.symbols@)
        &&& forall|i: int|
            0 <= i < self.symbols@.len() ==> {
                &&& (#[trigger] self.symbols@[i]).0 < self.width
                &&& self.symbols@[i].1 < self.height
                &&& self.symbols@[i].2 != Symbol::Plain
            }
    }

    /// Index of the list entry keyed by `(x, y)`.
    fn find_entry(&self, x: usize, y: usize) -> (r: Option<usize>)
        requires
            self.inv(),
        ensures
            match r {
                Some(i) => i < self.symbols@.len() && self.symbols@[i as int].0 == x
                    && self.symbols@[i as int].1 == y,
                None => !has_entry(self.symbols@, x as int, y as int),
            },
    {
        let mut i: usize = 0;
        while i < self.symbols.len()
            invariant
                i <= self.symbols@.len(),
                forall|k: int|
                    0 <= k < i ==> !((#[trigger] self.symbols@[k]).0 == x && self.symbols@[k].1
                        == y),
            decreases self.symbols@.len() - i,
        {
            let e = self.symbols[i];
            if e.0 == x && e.1 == y {
                return Some(i);
            }
            i += 1;
        }
        None
    }

    fn copy_symbols(&self) -> (v: Vec<(usize, usize, Symbol)>)
        ensures
            v@ == self.symbols@,
    {
        let mut v: Vec<(usize, usize, Symbol)> = Vec::new();
        let mut i: usize = 0;
        while i < self.symbols.len()
            invariant
                i <= self.symbols@.len(),
                v@ == self.symbols@.take(i as int),
            decreases self.symbols@.len() - i,
        {
            v.push(self.symbols[i]);
            i += 1;
            proof {
                assert(v@ =~= self.symbols@.take(i as int));
            }
        }
        proof {
            assert(self.symbols@.take(i as int) =~= self.symbols@);
        }
        v
    }

}

/// Replaces the whole state of the cell.
pub fn set_panel<G: Gridlike>(grid: &mut G, x: usize, y: usize, panel: Panel)
    requires
        old(grid).wf(),
        old(grid)@.contains(x as int, y as int),
    ensures
        final(grid).wf(),
        final(grid)@ == old(grid)@.with_panel(x as int, y as int, panel),
{
    proof {
        grid.lemma_wf();
    }
    grid.set_lit_at(x, y, panel.filled);
    grid.set_fixed_at(x, y, panel.fixed);
    grid.set_symbol_at(x, y, panel.symbol);
    proof {
        assert(grid@.cells =~= old(grid)@.with_panel(x as int, y as int, panel).cells);
    }
}

/// A cursor over the cells of a grid, row by row.
pub struct GridIter<'a> {
    x: usize,
    y: usize,
    grid: &'a Grid,
}

impl Grid {
    /// A cursor at the first cell.
    pub fn iter(&self) -> (it: GridIter<'_>)
        requires
            self.wf(),
        ensures
            it.wf(),
            it.grid() == self@,
            it.at() == (0int, 0int),
    {
        GridIter { x: 0, y: 0, grid: self }
    }
}

impl<'a> GridIter<'a> {
    /// The cursor walks a well-formed grid and has not left it by more than one step.
    pub closed spec fn wf(&self) -> bool {
        self.grid.wf() && self.x <= self.grid@.width && self.y <= self.grid@.height
    }

    /// The grid that the cursor walks.
    pub closed spec fn grid(&self) -> GridView {
        self.grid@
    }

    /// Where the cursor stands: the column may be one past the end of the row.
    pub closed spec fn at(&self) -> (int, int) {
        (self.x as int, self.y as int)
    }

    /// Hands out the next cell as `(x, y, panel)` and steps on; `None` once the last cell
    /// has been handed out.
    pub fn next(&mut self) -> (r: Option<(usize, usize, Panel)>)
        requires
            old(self).wf(),
        ensures
            final(self).wf(),
            final(self).grid() == old(self).grid(),
            ({
                let grid = old(self).grid();
                let c = grid.cursor(old(self).at().0, old(self).at().1);
                if grid.contains(c.0, c.1) {
                    &&& r == Some((c.0 as usize, c.1 as usize, grid.panel(c.0, c.1)))
                    &&& final(self).at() == (c.0 + 1, c.1)
                } else {
                    &&& r is None
                    &&& final(self).at() == old(self).at()
                }
            }),
    {
        let width = self.grid.width();
        let height = self.grid.height();
        if width == 0 || self.y >= height {
            return None;
        }
        let (x, y) = if self.x >= width {
            (0, self.y + 1)
        } else {
            (self.x, self.y)
        };
        if y >= height {
            return None;
        }
        let panel = self.grid.panel_at(x, y);
        self.x = x + 1;
        self.y = y;
        Some((x, y, panel))
    }
}

impl Clone for Grid {
    fn clone(&self) -> (g: Grid)
        ensures
            g@ == self@,
            self.wf() ==> g.wf(),
    {
        Grid {
            width: self.width,
            height: self.height,
            lit: self.lit,
            fixed: self.fixed,
            symbols: self.copy_symbols(),
        }
    }
}

} // verus!
