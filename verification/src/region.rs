//! Flood-filled regions: the cells that a seed reaches through orthogonal steps over
//! cells lit as the seed is, optionally held back by a scan horizon.

use vstd::prelude::*;
use vstd::set_lib::{lemma_int_range, lemma_len_subset, set_int_range};
use crate::bits::{bit, get_bit, lemma_bit_zero, set_bit};
use crate::grid::{Grid, Gridlike};
use crate::model::GridView;
use crate::neighbourhood::{has_offset, Neighbourhood};
use crate::panel::Panel;

verus! {

/// Whether `(x, y)` comes at or before `(upto_x, upto_y)` in a row-by-row scan.
pub open spec fn at_or_before(x: int, y: int, upto_x: int, upto_y: int) -> bool {
    y < upto_y || (y == upto_y && x <= upto_x)
}

/// Whether two cells share an edge.
pub open spec fn adjacent(ax: int, ay: int, bx: int, by: int) -> bool {
    ||| (ax == bx && (ay == by + 1 || ay + 1 == by))
    ||| (ay == by && (ax == bx + 1 || ax + 1 == bx))
}

/// The scan horizon of a region: `None` for none, else the last cell `(x, y)` that the
/// scan has reached.
pub open spec fn horizon_of(bounded: bool, upto_x: int, upto_y: int) -> Option<(int, int)> {
    if bounded {
        Some((upto_x, upto_y))
    } else {
        None
    }
}

impl GridView {
    /// A cell is known when the scan has reached it or its lit state is fixed.
    pub open spec fn known(self, horizon: Option<(int, int)>, x: int, y: int) -> bool {
        horizon matches Some(h) ==> at_or_before(x, y, h.0, h.1) || self.fixed(x, y)
    }

    /// A cell that a region with the given lit state may hold.
    pub open spec fn open_cell(self, lit: bool, horizon: Option<(int, int)>, x: int, y: int) -> bool {
        self.contains(x, y) && self.lit(x, y) == lit && self.known(horizon, x, y)
    }

    /// A chain of open cells, each sharing an edge with the next.
    pub open spec fn is_path(self, lit: bool, horizon: Option<(int, int)>, path: Seq<(int, int)>) -> bool {
        &&& path.len() > 0
        &&& forall|i: int|
            0 <= i < path.len() ==> self.open_cell(lit, horizon, (#[trigger] path[i]).0, path[i].1)
        &&& forall|i: int|
            0 <= i < path.len() - 1 ==> adjacent(
                (#[trigger] path[i]).0,
                path[i].1,
                path[i + 1].0,
                path[i + 1].1,
            )
    }

    /// Whether a path of cells lit as the seed is leads from the seed to `(x, y)`.
    pub open spec fn connected(
        self,
        horizon: Option<(int, int)>,
        seed_x: int,
        seed_y: int,
        x: int,
        y: int,
    ) -> bool {
        exists|path: Seq<(int, int)>|
            #![auto]
            self.is_path(self.lit(seed_x, seed_y), horizon, path) && path[0] == (seed_x, seed_y)
                && path.last() == (x, y)
    }

    /// Whether the seed lies beyond the horizon: its region is then empty.
    pub open spec fn seed_ahead(horizon: Option<(int, int)>, seed_x: int, seed_y: int) -> bool {
        horizon matches Some(h) && !at_or_before(seed_x, seed_y, h.0, h.1)
    }

    /// Whether `(x, y)` belongs to the region of the seed.
    pub open spec fn in_region(
        self,
        horizon: Option<(int, int)>,
        seed_x: int,
        seed_y: int,
        x: int,
        y: int,
    ) -> bool {
        !Self::seed_ahead(horizon, seed_x, seed_y) && self.connected(
            horizon,
            seed_x,
            seed_y,
            x,
            y,
        )
    }

    /// The entry that stands for the cell `(x, y)` in a region around the seed.
    pub open spec fn entry(self, seed_x: int, seed_y: int, x: int, y: int) -> (i8, i8, Panel) {
        ((x - seed_x) as i8, (y - seed_y) as i8, self.panel(x, y))
    }

    /// The entries of the connected cells among the first `rows` cells of column `x`,
    /// from the top down.
    pub open spec fn column_entries(
        self,
        horizon: Option<(int, int)>,
        seed_x: int,
        seed_y: int,
        x: int,
        rows: int,
    ) -> Seq<(i8, i8, Panel)>
        decreases rows,
    {
        if rows <= 0 {
            Seq::empty()
        } else {
            let above = self.column_entries(horizon, seed_x, seed_y, x, rows - 1);
            if self.connected(horizon, seed_x, seed_y, x, rows - 1) {
                above.push(self.entry(seed_x, seed_y, x, rows - 1))
            } else {
                above
            }
        }
    }

    /// The entries of the connected cells in the first `cols` columns, column by column.
    pub open spec fn columns_entries(
        self,
        horizon: Option<(int, int)>,
        seed_x: int,
        seed_y: int,
        cols: int,
    ) -> Seq<(i8, i8, Panel)>
        decreases cols,
    {
        if cols <= 0 {
            Seq::empty()
        } else {
            self.columns_entries(horizon, seed_x, seed_y, cols - 1) + self.column_entries(
                horizon,
                seed_x,
                seed_y,
                cols - 1,
                self.height as int,
            )
        }
    }

    /// The region of the seed as a list of entries, ordered by `(dx, dy)`: empty when the
    /// seed lies beyond the horizon, else one entry for each cell connected to the seed.
    pub open spec fn region(self, horizon: Option<(int, int)>, seed_x: int, seed_y: int) -> Seq<
        (i8, i8, Panel),
    > {
        if Self::seed_ahead(horizon, seed_x, seed_y) {
            Seq::empty()
        } else {
            self.columns_entries(horizon, seed_x, seed_y, self.width as int)
        }
    }

    /// A column contributes at most one entry per row.
    pub proof fn lemma_column_len(
        self,
        horizon: Option<(int, int)>,
        seed_x: int,
        seed_y: int,
        x: int,
        rows: int,
    )
        requires
            rows >= 0,
        ensures
            self.column_entries(horizon, seed_x, seed_y, x, rows).len() <= rows,
        decreases rows,
    {
        if rows > 0 {
            self.lemma_column_len(horizon, seed_x, seed_y, x, rows - 1);
        }
    }

    /// The first `cols` columns contribute at most one entry per cell.
    pub proof fn lemma_columns_len(
        self,
        horizon: Option<(int, int)>,
        seed_x: int,
        seed_y: int,
        cols: int,
    )
        requires
            cols >= 0,
            self.height <= 12,
        ensures
            self.columns_entries(horizon, seed_x, seed_y, cols).len() <= 12 * cols,
        decreases cols,
    {
        if cols > 0 {
            self.lemma_columns_len(horizon, seed_x, seed_y, cols - 1);
            self.lemma_column_len(horizon, seed_x, seed_y, cols - 1, self.height as int);
        }
    }

    /// A region has at most as many entries as the largest grid has cells.
    pub proof fn lemma_region_len(self, horizon: Option<(int, int)>, seed_x: int, seed_y: int)
        requires
            self.wf(),
        ensures
            self.region(horizon, seed_x, seed_y).len() <= 192,
    {
        self.lemma_columns_len(horizon, seed_x, seed_y, self.width as int);
    }

    /// Whether the entries stand for connected cells of the columns before `cols` and of
    /// the rows before `rows`, each with the panel of its cell.
    pub open spec fn entries_sound(
        self,
        entries: Seq<(i8, i8, Panel)>,
        horizon: Option<(int, int)>,
        seed_x: int,
        seed_y: int,
    ) -> bool {
        forall|i: int|
            0 <= i < entries.len() ==> {
                let e = #[trigger] entries[i];
                &&& self.contains(seed_x + e.0, seed_y + e.1)
                &&& self.connected(horizon, seed_x, seed_y, seed_x + e.0, seed_y + e.1)
                &&& e.2 == self.panel(seed_x + e.0, seed_y + e.1)
            }
    }

    /// Whether the offsets rise strictly from entry to entry, ordered by `dx`, then `dy`.
    pub open spec fn strictly_rising(entries: Seq<(i8, i8, Panel)>) -> bool {
        forall|i: int, j: int|
            0 <= i < j < entries.len() ==> {
                let a = #[trigger] entries[i];
                let b = #[trigger] entries[j];
                a.0 < b.0 || (a.0 == b.0 && a.1 < b.1)
            }
    }

    #[verifier::rlimit(50)]
    proof fn lemma_column_entries(
        self,
        horizon: Option<(int, int)>,
        seed_x: int,
        seed_y: int,
        x: int,
        rows: int,
    )
        requires
            self.wf(),
            self.contains(seed_x, seed_y),
            0 <= x < self.width,
            0 <= rows <= self.height,
        ensures
            self.entries_sound(
                self.column_entries(horizon, seed_x, seed_y, x, rows),
                horizon,
                seed_x,
                seed_y,
            ),
            Self::strictly_rising(self.column_entries(horizon, seed_x, seed_y, x, rows)),
            forall|i: int|
                0 <= i < self.column_entries(horizon, seed_x, seed_y, x, rows).len() ==> {
                    let e = #[trigger] self.column_entries(horizon, seed_x, seed_y, x, rows)[i];
                    e.0 == x - seed_x && e.1 + seed_y < rows
                },
            forall|cy: int|
                0 <= cy < rows && self.connected(horizon, seed_x, seed_y, x, cy) ==> has_offset(
                    self.column_entries(horizon, seed_x, seed_y, x, rows),
                    x - seed_x,
                    #[trigger] (cy - seed_y),
                ),
        decreases rows,
    {
        if rows > 0 {
            self.lemma_column_entries(horizon, seed_x, seed_y, x, rows - 1);
            let above = self.column_entries(horizon, seed_x, seed_y, x, rows - 1);
            let all = self.column_entries(horizon, seed_x, seed_y, x, rows);
            let e = self.entry(seed_x, seed_y, x, rows - 1);
            assert(e.0 == x - seed_x && e.1 == rows - 1 - seed_y);
            assert forall|i: int| 0 <= i < all.len() implies ({
                let f = #[trigger] all[i];
                &&& f.0 == x - seed_x
                &&& f.1 + seed_y < rows
                &&& self.contains(seed_x + f.0, seed_y + f.1)
                &&& self.connected(horizon, seed_x, seed_y, seed_x + f.0, seed_y + f.1)
                &&& f.2 == self.panel(seed_x + f.0, seed_y + f.1)
            }) by {
                if i < above.len() {
                    assert(all[i] == above[i]);
                }
            }
            assert forall|i: int, j: int| 0 <= i < j < all.len() implies ({
                let a = #[trigger] all[i];
                let b = #[trigger] all[j];
                a.0 < b.0 || (a.0 == b.0 && a.1 < b.1)
            }) by {
                assert(all[i] == above[i]);
                if j < above.len() {
                    assert(all[j] == above[j]);
                }
            }
            assert forall|cy: int|
                0 <= cy < rows && self.connected(
                    horizon,
                    seed_x,
                    seed_y,
                    x,
                    cy,
                ) implies has_offset(all, x - seed_x, #[trigger] (cy - seed_y)) by {
                if cy < rows - 1 {
                    assert(has_offset(above, x - seed_x, cy - seed_y));
                    let i = choose|i: int|
                        0 <= i < above.len() && (#[trigger] above[i]).0 == x - seed_x
                            && above[i].1 == cy - seed_y;
                    assert(all[i] == above[i]);
                } else {
                    assert(all[all.len() - 1] == e);
                }
            }
        }
    }

    #[verifier::rlimit(50)]
    proof fn lemma_columns_entries(
        self,
        horizon: Option<(int, int)>,
        seed_x: int,
        seed_y: int,
        cols: int,
    )
        requires
            self.wf(),
            self.contains(seed_x, seed_y),
            0 <= cols <= self.width,
        ensures
            self.entries_sound(
                self.columns_entries(horizon, seed_x, seed_y, cols),
                horizon,
                seed_x,
                seed_y,
            ),
            Self::strictly_rising(self.columns_entries(horizon, seed_x, seed_y, cols)),
            forall|i: int|
                0 <= i < self.columns_entries(horizon, seed_x, seed_y, cols).len() ==> (
                #[trigger] self.columns_entries(horizon, seed_x, seed_y, cols)[i]).0 + seed_x
                    < cols,
            forall|cx: int, cy: int|
                0 <= cx < cols && 0 <= cy < self.height && self.connected(
                    horizon,
                    seed_x,
                    seed_y,
                    cx,
                    cy,
                ) ==> has_offset(
                    self.columns_entries(horizon, seed_x, seed_y, cols),
                    #[trigger] (cx - seed_x),
                    #[trigger] (cy - seed_y),
                ),
        decreases cols,
    {
        if cols > 0 {
            self.lemma_columns_entries(horizon, seed_x, seed_y, cols - 1);
            self.lemma_column_entries(horizon, seed_x, seed_y, cols - 1, self.height as int);
            let before = self.columns_entries(horizon, seed_x, seed_y, cols - 1);
            let last = self.column_entries(horizon, seed_x, seed_y, cols - 1, self.height as int);
            let all = self.columns_entries(horizon, seed_x, seed_y, cols);
            assert(all == before + last);
            assert forall|i: int| 0 <= i < all.len() implies ({
                let f = #[trigger] all[i];
                &&& f.0 + seed_x < cols
                &&& self.contains(seed_x + f.0, seed_y + f.1)
                &&& self.connected(horizon, seed_x, seed_y, seed_x + f.0, seed_y + f.1)
                &&& f.2 == self.panel(seed_x + f.0, seed_y + f.1)
            }) by {
                if i < before.len() {
                    assert(all[i] == before[i]);
                } else {
                    assert(all[i] == last[i - before.len()]);
                }
            }
            assert forall|i: int, j: int| 0 <= i < j < all.len() implies ({
                let a = #[trigger] all[i];
                let b = #[trigger] all[j];
                a.0 < b.0 || (a.0 == b.0 && a.1 < b.1)
            }) by {
                if j < before.len() {
                    assert(all[i] == before[i]);
                    assert(all[j] == before[j]);
                } else if i < before.len() {
                    assert(all[i] == before[i]);
                    assert(all[j] == last[j - before.len()]);
                } else {
                    assert(all[i] == last[i - before.len()]);
                    assert(all[j] == last[j - before.len()]);
                }
            }
            assert forall|cx: int, cy: int|
                0 <= cx < cols && 0 <= cy < self.height && self.connected(
                    horizon,
                    seed_x,
                    seed_y,
                    cx,
                    cy,
                ) implies has_offset(all, #[trigger] (cx - seed_x), #[trigger] (cy - seed_y)) by {
                if cx < cols - 1 {
                    assert(has_offset(before, cx - seed_x, cy - seed_y));
                    let i = choose|i: int|
                        0 <= i < before.len() && (#[trigger] before[i]).0 == cx - seed_x
                            && before[i].1 == cy - seed_y;
                    assert(all[i] == before[i]);
                } else {
                    assert(has_offset(last, cx - seed_x, cy - seed_y));
                    let i = choose|i: int|
                        0 <= i < last.len() && (#[trigger] last[i]).0 == cx - seed_x && last[i].1
                            == cy - seed_y;
                    assert(all[before.len() + i] == last[i]);
                }
            }
        }
    }

    /// What a region holds: one entry for each cell of the region and no other, each with
    /// the panel of its cell, ordered by `dx`, then `dy`, so that no offset comes twice.
    pub proof fn lemma_region(self, horizon: Option<(int, int)>, seed_x: int, seed_y: int)
        requires
            self.wf(),
            self.contains(seed_x, seed_y),
        ensures
            self.entries_sound(self.region(horizon, seed_x, seed_y), horizon, seed_x, seed_y),
            Self::strictly_rising(self.region(horizon, seed_x, seed_y)),
            forall|cx: int, cy: int|
                self.contains(cx, cy) ==> (self.in_region(horizon, seed_x, seed_y, cx, cy)
                    <==> has_offset(
                    self.region(horizon, seed_x, seed_y),
                    #[trigger] (cx - seed_x),
                    #[trigger] (cy - seed_y),
                )),
    {
        let region = self.region(horizon, seed_x, seed_y);
        if !Self::seed_ahead(horizon, seed_x, seed_y) {
            self.lemma_columns_entries(horizon, seed_x, seed_y, self.width as int);
            assert forall|cx: int, cy: int|
                self.contains(cx, cy) && has_offset(
                    region,
                    #[trigger] (cx - seed_x),
                    #[trigger] (cy - seed_y),
                ) implies self.in_region(horizon, seed_x, seed_y, cx, cy) by {
                let i = choose|i: int|
                    0 <= i < region.len() && (#[trigger] region[i]).0 == cx - seed_x
                        && region[i].1 == cy - seed_y;
                assert(seed_x + region[i].0 == cx && seed_y + region[i].1 == cy);
            }
        }
    }

    /// The four cells around a marked cell are marked where they are open.
    pub open spec fn closed_around(
        self,
        rows: [u16; 12],
        lit: bool,
        horizon: Option<(int, int)>,
        x: int,
        y: int,
    ) -> bool {
        &&& self.open_cell(lit, horizon, x - 1, y) ==> marked(rows, x - 1, y)
        &&& self.open_cell(lit, horizon, x + 1, y) ==> marked(rows, x + 1, y)
        &&& self.open_cell(lit, horizon, x, y - 1) ==> marked(rows, x, y - 1)
        &&& self.open_cell(lit, horizon, x, y + 1) ==> marked(rows, x, y + 1)
    }

    /// A path reaches one cell further along an edge to an open cell.
    pub proof fn lemma_connected_step(
        self,
        horizon: Option<(int, int)>,
        seed_x: int,
        seed_y: int,
        x: int,
        y: int,
        nx: int,
        ny: int,
    )
        requires
            self.connected(horizon, seed_x, seed_y, x, y),
            adjacent(x, y, nx, ny),
            self.open_cell(self.lit(seed_x, seed_y), horizon, nx, ny),
        ensures
            self.connected(horizon, seed_x, seed_y, nx, ny),
    {
        let lit = self.lit(seed_x, seed_y);
        let path = choose|path: Seq<(int, int)>|
            #![auto]
            self.is_path(lit, horizon, path) && path[0] == (seed_x, seed_y) && path.last() == (
                x,
                y,
            );
        let longer = path.push((nx, ny));
        assert forall|i: int| 0 <= i < longer.len() implies self.open_cell(
            lit,
            horizon,
            (#[trigger] longer[i]).0,
            longer[i].1,
        ) by {
            if i < path.len() {
                assert(longer[i] == path[i]);
            }
        }
        assert forall|i: int| 0 <= i < longer.len() - 1 implies adjacent(
            (#[trigger] longer[i]).0,
            longer[i].1,
            longer[i + 1].0,
            longer[i + 1].1,
        ) by {
            assert(longer[i] == path[i]);
            if i + 1 < path.len() {
                assert(longer[i + 1] == path[i + 1]);
            }
        }
        assert(self.is_path(lit, horizon, longer));
        assert(longer[0] == path[0]);
        assert(longer.last() == (nx, ny));
    }

    /// An open seed is connected to itself.
    pub proof fn lemma_connected_seed(self, horizon: Option<(int, int)>, seed_x: int, seed_y: int)
        requires
            self.open_cell(self.lit(seed_x, seed_y), horizon, seed_x, seed_y),
        ensures
            self.connected(horizon, seed_x, seed_y, seed_x, seed_y),
    {
        let path = seq![(seed_x, seed_y)];
        assert(self.is_path(self.lit(seed_x, seed_y), horizon, path));
        assert(path[0] == (seed_x, seed_y) && path.last() == (seed_x, seed_y));
    }

    /// Every cell of a region is a cell of the grid, lit as the seed is, and known at the
    /// horizon: no free cell that the scan has not reached is in the region.
    pub proof fn lemma_connected_open(
        self,
        horizon: Option<(int, int)>,
        seed_x: int,
        seed_y: int,
        x: int,
        y: int,
    )
        requires
            self.connected(horizon, seed_x, seed_y, x, y),
        ensures
            self.open_cell(self.lit(seed_x, seed_y), horizon, x, y),
            self.open_cell(self.lit(seed_x, seed_y), horizon, seed_x, seed_y),
    {
        let lit = self.lit(seed_x, seed_y);
        let path = choose|path: Seq<(int, int)>|
            #![auto]
            self.is_path(lit, horizon, path) && path[0] == (seed_x, seed_y) && path.last() == (
                x,
                y,
            );
        assert(self.open_cell(lit, horizon, path[path.len() - 1].0, path[path.len() - 1].1));
        assert(self.open_cell(lit, horizon, path[0].0, path[0].1));
    }

    /// A set of marked cells that holds the start of a path and is closed around each of
    /// its cells holds every cell of the path.
    proof fn lemma_path_marked(
        self,
        rows: [u16; 12],
        lit: bool,
        horizon: Option<(int, int)>,
        path: Seq<(int, int)>,
        n: int,
    )
        requires
            self.is_path(lit, horizon, path),
            marked(rows, path[0].0, path[0].1),
            forall|x: int, y: int|
                self.contains(x, y) && #[trigger] marked(rows, x, y) ==> self.closed_around(
                    rows,
                    lit,
                    horizon,
                    x,
                    y,
                ),
            0 <= n < path.len(),
        ensures
            marked(rows, path[n].0, path[n].1),
        decreases n,
    {
        if n > 0 {
            self.lemma_path_marked(rows, lit, horizon, path, n - 1);
            let a = path[n - 1];
            let b = path[n];
            assert(self.open_cell(lit, horizon, a.0, a.1));
            assert(self.open_cell(lit, horizon, b.0, b.1));
            assert(adjacent(a.0, a.1, path[n - 1 + 1].0, path[n - 1 + 1].1));
            assert(self.closed_around(rows, lit, horizon, a.0, a.1));
        }
    }
}

/// Whether the cell `(x, y)` is marked in a set of row masks.
pub open spec fn marked(rows: [u16; 12], x: int, y: int) -> bool {
    0 <= y < 12 && bit(rows[y], x)
}

/// The marked cells, each numbered by its row and column.
pub open spec fn marked_set(rows: [u16; 12]) -> Set<int> {
    Set::new(|k: int| 0 <= k < 192 && marked(rows, k % 16, k / 16))
}

/// Whether the cell `(x, y)` waits on the stack.
pub open spec fn on_stack(stack: Seq<(usize, usize)>, x: int, y: int) -> bool {
    exists|i: int| 0 <= i < stack.len() && (#[trigger] stack[i]).0 == x && stack[i].1 == y
}

proof fn lemma_marked_set_bound(rows: [u16; 12])
    ensures
        marked_set(rows).finite(),
        marked_set(rows).len() <= 192,
{
    lemma_int_range(0, 192);
    assert(marked_set(rows).subset_of(set_int_range(0, 192)));
    lemma_len_subset(marked_set(rows), set_int_range(0, 192));
}

proof fn lemma_marked_set_insert(before: [u16; 12], after: [u16; 12], x: int, y: int)
    requires
        0 <= x < 16,
        0 <= y < 12,
        !marked(before, x, y),
        forall|cx: int, cy: int| #[trigger]
            marked(after, cx, cy) == (marked(before, cx, cy) || (cx == x && cy == y)),
    ensures
        marked_set(after).len() == marked_set(before).len() + 1,
{
    lemma_marked_set_bound(before);
    let k = y * 16 + x;
    assert(marked_set(after) =~= marked_set(before).insert(k)) by {
        assert forall|j: int| marked_set(after).contains(j) == marked_set(before).insert(
            k,
        ).contains(j) by {
            if 0 <= j < 192 {
                assert(marked(after, j % 16, j / 16) == (marked(before, j % 16, j / 16) || (j % 16
                    == x && j / 16 == y)));
            }
        }
    }
    assert(!marked_set(before).contains(k));
}

impl Grid {
    /// Whether a region with the given lit state may hold the cell.
    fn is_open(
        &self,
        lit: bool,
        bounded: bool,
        upto_x: usize,
        upto_y: usize,
        x: usize,
        y: usize,
    ) -> (open: bool)
        requires
            self.wf(),
            self@.contains(x as int, y as int),
        ensures
            open == self@.open_cell(
                lit,
                horizon_of(bounded, upto_x as int, upto_y as int),
                x as int,
                y as int,
            ),
    {
        self.lit_at(x, y) == lit && (!bounded || y < upto_y || (y == upto_y && x <= upto_x)
            || self.fixed_at(x, y))
    }

    /// Marks the cell and puts it on the stack if it is open and not yet marked.
    fn visit(
        &self,
        lit: bool,
        bounded: bool,
        upto_x: usize,
        upto_y: usize,
        x: usize,
        y: usize,
        seen: &mut [u16; 12],
        stack: &mut Vec<(usize, usize)>,
    )
        requires
            self.wf(),
            self@.contains(x as int, y as int),
        ensures
            ({
                let fresh = self@.open_cell(
                    lit,
                    horizon_of(bounded, upto_x as int, upto_y as int),
                    x as int,
                    y as int,
                ) && !marked(*old(seen), x as int, y as int);
                &&& forall|cx: int, cy: int| #[trigger]
                    marked(*final(seen), cx, cy) == (marked(*old(seen), cx, cy) || (fresh && cx
                        == x && cy == y))
                &&& final(stack)@ == (if fresh {
                    old(stack)@.push((x, y))
                } else {
                    old(stack)@
                })
                &&& marked_set(*final(seen)).len() == marked_set(*old(seen)).len() + (if fresh {
                    1int
                } else {
                    0int
                })
            }),
    {
        if self.is_open(lit, bounded, upto_x, upto_y, x, y) && !get_bit(seen[y], x) {
            let row = set_bit(seen[y], x, true);
            seen[y] = row;
            stack.push((x, y));
            proof {
                lemma_marked_set_insert(*old(seen), *seen, x as int, y as int);
            }
        } else {
            proof {
                assert(marked_set(*seen) =~= marked_set(*old(seen)));
            }
        }
    }

    /// Visits the four cells around `(x, y)`.
    #[verifier::rlimit(50)]
    fn expand(
        &self,
        lit: bool,
        bounded: bool,
        upto_x: usize,
        upto_y: usize,
        x: usize,
        y: usize,
        seen: &mut [u16; 12],
        stack: &mut Vec<(usize, usize)>,
    )
        requires
            self.wf(),
            self@.contains(x as int, y as int),
        ensures
            forall|cx: int, cy: int| #[trigger]
                marked(*old(seen), cx, cy) ==> marked(*final(seen), cx, cy),
            forall|cx: int, cy: int|
                #[trigger] marked(*final(seen), cx, cy) && !marked(*old(seen), cx, cy) ==> {
                    &&& adjacent(x as int, y as int, cx, cy)
                    &&& self@.open_cell(
                        lit,
                        horizon_of(bounded, upto_x as int, upto_y as int),
                        cx,
                        cy,
                    )
                    &&& on_stack(final(stack)@, cx, cy)
                },
            self@.closed_around(
                *final(seen),
                lit,
                horizon_of(bounded, upto_x as int, upto_y as int),
                x as int,
                y as int,
            ),
            final(stack)@.len() >= old(stack)@.len(),
            forall|i: int|
                0 <= i < old(stack)@.len() ==> #[trigger] final(stack)@[i] == old(stack)@[i],
            forall|i: int|
                old(stack)@.len() <= i < final(stack)@.len() ==> {
                    &&& self@.contains((#[trigger] final(stack)@[i]).0 as int, final(stack)@[i].1 as int)
                    &&& marked(*final(seen), final(stack)@[i].0 as int, final(stack)@[i].1 as int)
                },
            marked_set(*final(seen)).len() >= marked_set(*old(seen)).len(),
            marked_set(*final(seen)).len() == marked_set(*old(seen)).len() ==> final(stack)@
                == old(stack)@,
    {
        let ghost horizon = horizon_of(bounded, upto_x as int, upto_y as int);
        let ghost seen0 = *seen;
        let ghost stack0 = stack@;
        if x > 0 {
            self.visit(lit, bounded, upto_x, upto_y, x - 1, y, seen, stack);
        }
        let ghost seen1 = *seen;
        let ghost stack1 = stack@;
        if y > 0 {
            self.visit(lit, bounded, upto_x, upto_y, x, y - 1, seen, stack);
        }
        let ghost seen2 = *seen;
        let ghost stack2 = stack@;
        if x + 1 < self.width() {
            self.visit(lit, bounded, upto_x, upto_y, x + 1, y, seen, stack);
        }
        let ghost seen3 = *seen;
        let ghost stack3 = stack@;
        if y + 1 < self.height() {
            self.visit(lit, bounded, upto_x, upto_y, x, y + 1, seen, stack);
        }
        proof {
            assert forall|cx: int, cy: int| #[trigger] marked(seen0, cx, cy) implies marked(
                *seen,
                cx,
                cy,
            ) by {
                assert(marked(seen1, cx, cy));
                assert(marked(seen2, cx, cy));
                assert(marked(seen3, cx, cy));
            }
            assert forall|cx: int, cy: int|
                #[trigger] marked(*seen, cx, cy) && !marked(seen0, cx, cy) implies adjacent(
                x as int,
                y as int,
                cx,
                cy,
            ) && self@.open_cell(lit, horizon, cx, cy) && on_stack(stack@, cx, cy) by {
                if marked(seen1, cx, cy) {
                    assert(stack1[stack0.len() as int] == (cx as usize, cy as usize));
                    assert(stack@[stack0.len() as int] == stack1[stack0.len() as int]);
                } else if marked(seen2, cx, cy) {
                    assert(stack2[stack1.len() as int] == (cx as usize, cy as usize));
                    assert(stack@[stack1.len() as int] == stack2[stack1.len() as int]);
                } else if marked(seen3, cx, cy) {
                    assert(stack3[stack2.len() as int] == (cx as usize, cy as usize));
                    assert(stack@[stack2.len() as int] == stack3[stack2.len() as int]);
                } else {
                    assert(stack@[stack3.len() as int] == (cx as usize, cy as usize));
                }
            }
            let xi = x as int;
            let yi = y as int;
            assert(self@.closed_around(*seen, lit, horizon, xi, yi)) by {
                assert(marked(seen1, xi - 1, yi) ==> marked(seen2, xi - 1, yi));
                assert(marked(seen2, xi - 1, yi) ==> marked(seen3, xi - 1, yi));
                assert(marked(seen3, xi - 1, yi) ==> marked(*seen, xi - 1, yi));
                assert(marked(seen2, xi, yi - 1) ==> marked(seen3, xi, yi - 1));
                assert(marked(seen3, xi, yi - 1) ==> marked(*seen, xi, yi - 1));
                assert(marked(seen3, xi + 1, yi) ==> marked(*seen, xi + 1, yi));
            }
            assert forall|i: int| 0 <= i < stack0.len() implies #[trigger] stack@[i]
                == stack0[i] by {
                assert(stack1[i] == stack0[i]);
                assert(stack2[i] == stack1[i]);
                assert(stack3[i] == stack2[i]);
            }
            assert forall|i: int| stack0.len() <= i < stack@.len() implies self@.contains(
                (#[trigger] stack@[i]).0 as int,
                stack@[i].1 as int,
            ) && marked(*seen, stack@[i].0 as int, stack@[i].1 as int) by {
                if i < stack1.len() {
                    assert(stack@[i] == stack1[i]) by {
                        assert(stack2[i] == stack1[i]);
                        assert(stack3[i] == stack2[i]);
                    }
                    assert(marked(seen1, xi - 1, yi));
                    assert(marked(seen2, xi - 1, yi));
                    assert(marked(seen3, xi - 1, yi));
                } else if i < stack2.len() {
                    assert(stack@[i] == stack2[i]) by {
                        assert(stack3[i] == stack2[i]);
                    }
                    assert(marked(seen2, xi, yi - 1));
                    assert(marked(seen3, xi, yi - 1));
                } else if i < stack3.len() {
                    assert(stack@[i] == stack3[i]);
                    assert(marked(seen3, xi + 1, yi));
                } else {
                    assert(marked(*seen, xi, yi + 1));
                }
            }
        }
    }

    /// Marks every cell connected to the seed.
    #[verifier::rlimit(50)]
    fn flood(&self, bounded: bool, upto_x: usize, upto_y: usize, x: usize, y: usize) -> (seen: [
        u16;
        12
    ])
        requires
            self.wf(),
            self@.contains(x as int, y as int),
            bounded ==> at_or_before(x as int, y as int, upto_x as int, upto_y as int),
        ensures
            forall|cx: int, cy: int|
                self@.contains(cx, cy) ==> (#[trigger] marked(seen, cx, cy) <==> self@.connected(
                    horizon_of(bounded, upto_x as int, upto_y as int),
                    x as int,
                    y as int,
                    cx,
                    cy,
                )),
    {
        let ghost horizon = horizon_of(bounded, upto_x as int, upto_y as int);
        let lit = self.lit_at(x, y);
        let mut seen = [0u16, 0u16, 0u16, 0u16, 0u16, 0u16, 0u16, 0u16, 0u16, 0u16, 0u16, 0u16];
        proof {
            assert forall|cx: int, cy: int| !marked(seen, cx, cy) by {
                lemma_bit_zero(cx);
            }
        }
        let ghost blank = seen;
        let row = set_bit(seen[y], x, true);
        seen[y] = row;
        let mut stack: Vec<(usize, usize)> = Vec::new();
        stack.push((x, y));
        proof {
            self@.lemma_connected_seed(horizon, x as int, y as int);
            lemma_marked_set_bound(seen);
            assert(stack@[0] == (x, y));
            assert forall|cx: int, cy: int| #[trigger]
                marked(seen, cx, cy) == (cx == x && cy == y) by {
                assert(!marked(blank, cx, cy));
            }
            assert(on_stack(stack@, x as int, y as int));
        }
        while stack.len() > 0
            invariant
                self.wf(),
                self@.contains(x as int, y as int),
                horizon == horizon_of(bounded, upto_x as int, upto_y as int),
                lit == self@.lit(x as int, y as int),
                marked(seen, x as int, y as int),
                forall|cx: int, cy: int|
                    self@.contains(cx, cy) && #[trigger] marked(seen, cx, cy) ==> self@.connected(
                        horizon,
                        x as int,
                        y as int,
                        cx,
                        cy,
                    ),
                forall|i: int|
                    0 <= i < stack@.len() ==> self@.contains(
                        (#[trigger] stack@[i]).0 as int,
                        stack@[i].1 as int,
                    ) && marked(seen, stack@[i].0 as int, stack@[i].1 as int),
                forall|cx: int, cy: int|
                    self@.contains(cx, cy) && #[trigger] marked(seen, cx, cy) && !on_stack(
                        stack@,
                        cx,
                        cy,
                    ) ==> self@.closed_around(seen, lit, horizon, cx, cy),
                marked_set(seen).len() <= 192,
            decreases 192 - marked_set(seen).len(), stack@.len(),
        {
            let ghost seen0 = seen;
            let ghost stack0 = stack@;
            let (vx, vy) = stack.pop().unwrap();
            let ghost rest = stack@;
            proof {
                assert(stack0[stack0.len() - 1] == (vx, vy));
                assert(self@.contains(vx as int, vy as int));
                assert(marked(seen0, vx as int, vy as int));
            }
            self.expand(lit, bounded, upto_x, upto_y, vx, vy, &mut seen, &mut stack);
            proof {
                lemma_marked_set_bound(seen);
                assert forall|cx: int, cy: int|
                    self@.contains(cx, cy) && #[trigger] marked(seen, cx, cy) implies self@.connected(
                    horizon,
                    x as int,
                    y as int,
                    cx,
                    cy,
                ) by {
                    if !marked(seen0, cx, cy) {
                        self@.lemma_connected_step(
                            horizon,
                            x as int,
                            y as int,
                            vx as int,
                            vy as int,
                            cx,
                            cy,
                        );
                    }
                }
                assert forall|i: int| 0 <= i < stack@.len() implies self@.contains(
                    (#[trigger] stack@[i]).0 as int,
                    stack@[i].1 as int,
                ) && marked(seen, stack@[i].0 as int, stack@[i].1 as int) by {
                    if i < rest.len() {
                        assert(stack@[i] == rest[i]);
                        assert(rest[i] == stack0[i]);
                        assert(marked(seen0, stack0[i].0 as int, stack0[i].1 as int));
                    }
                }
                assert forall|cx: int, cy: int|
                    self@.contains(cx, cy) && #[trigger] marked(seen, cx, cy) && !on_stack(
                        stack@,
                        cx,
                        cy,
                    ) implies self@.closed_around(seen, lit, horizon, cx, cy) by {
                    if cx == vx && cy == vy {
                    } else if marked(seen0, cx, cy) {
                        if on_stack(stack0, cx, cy) {
                            let i = choose|i: int|
                                0 <= i < stack0.len() && (#[trigger] stack0[i]).0 == cx
                                    && stack0[i].1 == cy;
                            assert(i < rest.len());
                            assert(stack@[i] == rest[i]);
                            assert(rest[i] == stack0[i]);
                            assert(false);
                        }
                        assert(self@.closed_around(seen0, lit, horizon, cx, cy));
                        assert(marked(seen0, cx - 1, cy) ==> marked(seen, cx - 1, cy));
                        assert(marked(seen0, cx + 1, cy) ==> marked(seen, cx + 1, cy));
                        assert(marked(seen0, cx, cy - 1) ==> marked(seen, cx, cy - 1));
                        assert(marked(seen0, cx, cy + 1) ==> marked(seen, cx, cy + 1));
                    } else {
                        assert(on_stack(stack@, cx, cy));
                    }
                }
            }
        }
        proof {
            assert forall|cx: int, cy: int|
                self@.contains(cx, cy) && self@.connected(
                    horizon,
                    x as int,
                    y as int,
                    cx,
                    cy,
                ) implies #[trigger] marked(seen, cx, cy) by {
                let path = choose|path: Seq<(int, int)>|
                    #![auto]
                    self@.is_path(lit, horizon, path) && path[0] == (x as int, y as int)
                        && path.last() == (cx, cy);
                assert forall|ax: int, ay: int|
                    self@.contains(ax, ay) && #[trigger] marked(
                        seen,
                        ax,
                        ay,
                    ) implies self@.closed_around(seen, lit, horizon, ax, ay) by {
                    assert(!on_stack(stack@, ax, ay));
                }
                self@.lemma_path_marked(seen, lit, horizon, path, path.len() - 1);
            }
        }
        seen
    }

    /// Lists the marked cells column by column.
    fn collect(
        &self,
        bounded: bool,
        upto_x: usize,
        upto_y: usize,
        x: usize,
        y: usize,
        member: &[u16; 12],
    ) -> (v: Vec<(i8, i8, Panel)>)
        requires
            self.wf(),
            self@.contains(x as int, y as int),
            forall|cx: int, cy: int|
                self@.contains(cx, cy) ==> (#[trigger] marked(*member, cx, cy)
                    <==> self@.connected(
                    horizon_of(bounded, upto_x as int, upto_y as int),
                    x as int,
                    y as int,
                    cx,
                    cy,
                )),
        ensures
            v@ == self@.columns_entries(
                horizon_of(bounded, upto_x as int, upto_y as int),
                x as int,
                y as int,
                self@.width as int,
            ),
    {
        let ghost horizon = horizon_of(bounded, upto_x as int, upto_y as int);
        let width = self.width();
        let height = self.height();
        let mut v: Vec<(i8, i8, Panel)> = Vec::new();
        let mut cx: usize = 0;
        while cx < width
            invariant
                self.wf(),
                self@.contains(x as int, y as int),
                width == self@.width,
                height == self@.height,
                horizon == horizon_of(bounded, upto_x as int, upto_y as int),
                cx <= width,
                forall|ax: int, ay: int|
                    self@.contains(ax, ay) ==> (#[trigger] marked(*member, ax, ay)
                        <==> self@.connected(horizon, x as int, y as int, ax, ay)),
                v@ == self@.columns_entries(horizon, x as int, y as int, cx as int),
            decreases width - cx,
        {
            let ghost before = v@;
            let mut cy: usize = 0;
            proof {
                assert(v@ =~= before + self@.column_entries(
                    horizon,
                    x as int,
                    y as int,
                    cx as int,
                    0,
                ));
            }
            while cy < height
                invariant
                    before == self@.columns_entries(horizon, x as int, y as int, cx as int),
                    self.wf(),
                    self@.contains(x as int, y as int),
                    width == self@.width,
                    height == self@.height,
                    horizon == horizon_of(bounded, upto_x as int, upto_y as int),
                    cx < width,
                    cy <= height,
                    forall|ax: int, ay: int|
                        self@.contains(ax, ay) ==> (#[trigger] marked(*member, ax, ay)
                            <==> self@.connected(horizon, x as int, y as int, ax, ay)),
                    v@ == before + self@.column_entries(
                        horizon,
                        x as int,
                        y as int,
                        cx as int,
                        cy as int,
                    ),
                decreases height - cy,
            {
                let ghost above = self@.column_entries(
                    horizon,
                    x as int,
                    y as int,
                    cx as int,
                    cy as int,
                );
                proof {
                    assert(marked(*member, cx as int, cy as int) <==> self@.connected(
                        horizon,
                        x as int,
                        y as int,
                        cx as int,
                        cy as int,
                    ));
                }
                if get_bit(member[cy], cx) {
                    let entry = (cx as i8 - x as i8, cy as i8 - y as i8, self.panel_at(cx, cy));
                    v.push(entry);
                    proof {
                        assert(entry == self@.entry(x as int, y as int, cx as int, cy as int));
                        assert(v@ =~= before + above.push(entry));
                    }
                }
                cy += 1;
            }
            cx += 1;
        }
        v
    }

    /// Fills the region of `(x, y)`: every cell that a path of known cells lit as `(x, y)`
    /// is connects to it, listed column by column. With a horizon, a seed that the scan
    /// has not reached has an empty region.
    pub(crate) fn fill(
        &self,
        bounded: bool,
        upto_x: usize,
        upto_y: usize,
        x: usize,
        y: usize,
    ) -> (n: Neighbourhood)
        requires
            self.wf(),
            self@.contains(x as int, y as int),
        ensures
            n.offset_x == x,
            n.offset_y == y,
            n.contents@ == self@.region(
                horizon_of(bounded, upto_x as int, upto_y as int),
                x as int,
                y as int,
            ),
            n.contents@.len() <= 192,
            self@.entries_sound(
                n.contents@,
                horizon_of(bounded, upto_x as int, upto_y as int),
                x as int,
                y as int,
            ),
            GridView::strictly_rising(n.contents@),
    {
        proof {
            let horizon = horizon_of(bounded, upto_x as int, upto_y as int);
            self@.lemma_region_len(horizon, x as int, y as int);
            self@.lemma_region(horizon, x as int, y as int);
        }
        if bounded && (y > upto_y || (y == upto_y && x > upto_x)) {
            return Neighbourhood { offset_x: x, offset_y: y, contents: Vec::new() };
        }
        let member = self.flood(bounded, upto_x, upto_y, x, y);
        let contents = self.collect(bounded, upto_x, upto_y, x, y, &member);
        Neighbourhood { offset_x: x, offset_y: y, contents }
    }
}

} // verus!
