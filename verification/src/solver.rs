//! The search for an assignment of the free cells under which every cell keeps its rule.

use vstd::prelude::*;
use crate::grid::{Grid, Gridlike};
use crate::model::GridView;
use crate::panel::{completes, Panel};

verus! {

impl GridView {
    /// Every cell keeps the rule of its glyph.
    pub open spec fn solved(self) -> bool {
        forall|x: int, y: int| #[trigger]
            self.contains(x, y) ==> self.panel(x, y).satisfied_spec(self, x, y) is Ok
    }

    /// No cell is known to break its rule when the scan has reached `(upto_x, upto_y)`.
    pub open spec fn feasible(self, upto_x: int, upto_y: int) -> bool {
        forall|x: int, y: int| #[trigger]
            self.contains(x, y) ==> self.panel(x, y).satisfiable_spec(self, x, y, upto_x, upto_y)
    }

    /// The result of the search from `(x, y)`: the grid itself if it is solved; nothing if
    /// the cells up to the one before `(x, y)` are no longer feasible, or no cell is left;
    /// else the result for the cell that follows, with a free cell tried unlit first and
    /// lit second.
    pub open spec fn search(self, x: int, y: int) -> Option<GridView>
        decreases self.rank(x, y),
        when self.width <= 16
    {
        let c = self.cursor(x, y);
        if self.solved() {
            Some(self)
        } else if x > 0 && !self.feasible(x - 1, y) {
            None
        } else if x < 0 || y < 0 || c.1 >= self.height {
            None
        } else if self.fixed(c.0, c.1) {
            self.search(c.0 + 1, c.1)
        } else {
            match self.with_lit(c.0, c.1, false).search(c.0 + 1, c.1) {
                Some(s) => Some(s),
                None => self.with_lit(c.0, c.1, true).search(c.0 + 1, c.1),
            }
        }
    }

    /// A grid without cells is solved.
    pub proof fn lemma_unsolved_has_cells(self)
        requires
            !self.solved(),
        ensures
            self.width > 0,
            self.height > 0,
    {
        reveal(Panel::satisfied_spec);
        if self.width == 0 || self.height == 0 {
            assert forall|x: int, y: int| #[trigger] self.contains(x, y) implies self.panel(
                x,
                y,
            ).satisfied_spec(self, x, y) is Ok by {}
        }
    }

    /// Changing the lit state of a free cell leaves the puzzle the same.
    pub proof fn lemma_with_lit_same_puzzle(self, x: int, y: int, lit: bool)
        requires
            self.wf(),
            self.contains(x, y),
            !self.fixed(x, y),
        ensures
            self.with_lit(x, y, lit).wf(),
            self.same_puzzle(self.with_lit(x, y, lit)),
    {
    }

    /// Whatever the search finds is a solved grid of the same puzzle: the same size, the
    /// same glyphs, the same fixed cells with their lit state.
    #[verifier::rlimit(50)]
    pub proof fn lemma_search_sound(self, x: int, y: int)
        requires
            self.wf(),
        ensures
            self.search(x, y) matches Some(s) ==> s.wf() && s.solved() && self.same_puzzle(s),
        decreases self.rank(x, y),
    {
        let c = self.cursor(x, y);
        if self.solved() {
        } else if x > 0 && !self.feasible(x - 1, y) {
        } else if x < 0 || y < 0 || c.1 >= self.height {
        } else if self.fixed(c.0, c.1) {
            self.lemma_search_sound(c.0 + 1, c.1);
        } else {
            self.lemma_unsolved_has_cells();
            let off = self.with_lit(c.0, c.1, false);
            let on = self.with_lit(c.0, c.1, true);
            self.lemma_with_lit_same_puzzle(c.0, c.1, false);
            self.lemma_with_lit_same_puzzle(c.0, c.1, true);
            off.lemma_search_sound(c.0 + 1, c.1);
            on.lemma_search_sound(c.0 + 1, c.1);
            if off.search(c.0 + 1, c.1) is Some {
                let s = off.search(c.0 + 1, c.1)->Some_0;
                assert(self.same_puzzle(s)) by {
                    assert forall|ax: int, ay: int| #[trigger] self.contains(ax, ay) implies {
                        &&& self.fixed(ax, ay) == s.fixed(ax, ay)
                        &&& self.symbol(ax, ay) == s.symbol(ax, ay)
                        &&& self.fixed(ax, ay) ==> self.lit(ax, ay) == s.lit(ax, ay)
                    } by {
                        assert(off.contains(ax, ay));
                    }
                }
            } else if on.search(c.0 + 1, c.1) is Some {
                let s = on.search(c.0 + 1, c.1)->Some_0;
                assert(self.same_puzzle(s)) by {
                    assert forall|ax: int, ay: int| #[trigger] self.contains(ax, ay) implies {
                        &&& self.fixed(ax, ay) == s.fixed(ax, ay)
                        &&& self.symbol(ax, ay) == s.symbol(ax, ay)
                        &&& self.fixed(ax, ay) ==> self.lit(ax, ay) == s.lit(ax, ay)
                    } by {
                        assert(on.contains(ax, ay));
                    }
                }
            }
        }
    }

    /// Whether some cell holds pips.
    pub open spec fn has_pips(self) -> bool {
        exists|x: int, y: int| #[trigger] self.contains(x, y) && self.symbol(x, y) is Pips
    }

    /// Whether a scan at `(x, y)` has passed the cell `(ax, ay)`.
    pub open spec fn scanned(self, ax: int, ay: int, x: int, y: int) -> bool {
        ay < self.cursor(x, y).1 || (ay == self.cursor(x, y).1 && ax < self.cursor(x, y).0)
    }

    /// Whether `solution` is this grid with the free cells from `(x, y)` on lit in some
    /// way.
    pub open spec fn extends_to(self, solution: GridView, x: int, y: int) -> bool {
        &&& self.same_puzzle(solution)
        &&& forall|ax: int, ay: int|
            #[trigger] self.contains(ax, ay) && self.scanned(ax, ay, x, y) ==> solution.lit(
                ax,
                ay,
            ) == self.lit(ax, ay)
    }

    /// On a grid without pips the search misses no solution: if the free cells from
    /// `(x, y)` on can be lit so that every cell keeps its rule, the search finds an
    /// assignment.
    #[verifier::rlimit(50)]
    pub proof fn lemma_search_complete(self, solution: GridView, x: int, y: int)
        requires
            self.wf(),
            solution.wf(),
            !self.has_pips(),
            0 <= x,
            0 <= y,
            solution.solved(),
            self.extends_to(solution, x, y),
        ensures
            self.search(x, y) is Some,
        decreases self.rank(x, y),
    {
        let c = self.cursor(x, y);
        if self.solved() {
        } else if x > 0 && !self.feasible(x - 1, y) {
            let (bx, by) = choose|bx: int, by: int|
                #![trigger self.contains(bx, by)]
                self.contains(bx, by) && !self.panel(bx, by).satisfiable_spec(
                    self,
                    bx,
                    by,
                    x - 1,
                    y,
                );
            assert(completes(self, solution, x - 1, y)) by {
                assert forall|ax: int, ay: int| #[trigger] self.contains(ax, ay) implies {
                    &&& solution.fixed(ax, ay) == self.fixed(ax, ay)
                    &&& solution.symbol(ax, ay) == self.symbol(ax, ay)
                    &&& self.known(Some((x - 1, y)), ax, ay) ==> solution.lit(ax, ay) == self.lit(
                        ax,
                        ay,
                    )
                } by {
                    if self.known(Some((x - 1, y)), ax, ay) && !self.fixed(ax, ay) {
                        assert(self.scanned(ax, ay, x, y));
                    }
                }
            }
            assert(!(self.symbol(bx, by) is Pips));
            self.panel(bx, by).lemma_pruning_is_sound(self, solution, bx, by, x - 1, y);
            assert(solution.contains(bx, by));
            assert(false);
        } else if c.1 >= self.height {
            assert(solution.cells =~= self.cells) by {
                assert forall|p: (int, int)| self.cells.dom().contains(p) implies #[trigger] solution.cells[p]
                    == self.cells[p] by {
                    assert(self.contains(p.0, p.1));
                    assert(self.scanned(p.0, p.1, x, y));
                    assert(solution.lit(p.0, p.1) == self.lit(p.0, p.1));
                    assert(solution.fixed(p.0, p.1) == self.fixed(p.0, p.1));
                    assert(solution.symbol(p.0, p.1) == self.symbol(p.0, p.1));
                }
            }
            assert(solution == self);
            assert(false);
        } else {
            self.lemma_unsolved_has_cells();
            assert(self.contains(c.0, c.1));
            if self.fixed(c.0, c.1) {
                assert(self.extends_to(solution, c.0 + 1, c.1)) by {
                    assert forall|ax: int, ay: int|
                        #[trigger] self.contains(ax, ay) && self.scanned(
                            ax,
                            ay,
                            c.0 + 1,
                            c.1,
                        ) implies solution.lit(ax, ay) == self.lit(ax, ay) by {
                        if !(ax == c.0 && ay == c.1) {
                            assert(self.scanned(ax, ay, x, y));
                        }
                    }
                }
                self.lemma_search_complete(solution, c.0 + 1, c.1);
            } else {
                let lit = solution.lit(c.0, c.1);
                let tried = self.with_lit(c.0, c.1, lit);
                self.lemma_with_lit_same_puzzle(c.0, c.1, lit);
                assert(tried.extends_to(solution, c.0 + 1, c.1)) by {
                    assert forall|ax: int, ay: int| #[trigger] tried.contains(ax, ay) implies {
                        &&& tried.fixed(ax, ay) == solution.fixed(ax, ay)
                        &&& tried.symbol(ax, ay) == solution.symbol(ax, ay)
                        &&& tried.fixed(ax, ay) ==> tried.lit(ax, ay) == solution.lit(ax, ay)
                        &&& tried.scanned(ax, ay, c.0 + 1, c.1) ==> solution.lit(ax, ay)
                            == tried.lit(ax, ay)
                    } by {
                        assert(self.contains(ax, ay));
                        if !(ax == c.0 && ay == c.1) && tried.scanned(ax, ay, c.0 + 1, c.1) {
                            assert(self.scanned(ax, ay, x, y));
                        }
                    }
                }
                assert(!tried.has_pips()) by {
                    assert forall|ax: int, ay: int| #[trigger] tried.contains(ax, ay) implies !(
                    tried.symbol(ax, ay) is Pips) by {
                        assert(self.contains(ax, ay));
                    }
                }
                tried.lemma_search_complete(solution, c.0 + 1, c.1);
            }
        }
    }
}

impl Grid {
    /// Whether every cell keeps the rule of its glyph.
    #[verifier::rlimit(50)]
    pub fn is_solved(&self) -> (r: bool)
        requires
            self.wf(),
        ensures
            r == self@.solved(),
    {
        let width = self.width();
        let height = self.height();
        let mut y: usize = 0;
        while y < height
            invariant
                self.wf(),
                width == self@.width,
                height == self@.height,
                y <= height,
                forall|ax: int, ay: int|
                    #[trigger] self@.contains(ax, ay) && ay < y ==> self@.panel(
                        ax,
                        ay,
                    ).satisfied_spec(self@, ax, ay) is Ok,
            decreases height - y,
        {
            let mut x: usize = 0;
            while x < width
                invariant
                    self.wf(),
                    width == self@.width,
                    height == self@.height,
                    y < height,
                    x <= width,
                    forall|ax: int, ay: int|
                        #[trigger] self@.contains(ax, ay) && (ay < y || (ay == y && ax < x))
                            ==> self@.panel(ax, ay).satisfied_spec(self@, ax, ay) is Ok,
                decreases width - x,
            {
                let panel = self.panel_at(x, y);
                if panel.satisfied(x, y, self).is_err() {
                    proof {
                        assert(self@.contains(x as int, y as int));
                    }
                    return false;
                }
                x += 1;
            }
            y += 1;
        }
        true
    }

    /// Whether no cell is known to break its rule when the scan has reached
    /// `(upto_x, upto_y)`.
    #[verifier::rlimit(50)]
    pub fn solveable(&self, upto_x: usize, upto_y: usize) -> (r: bool)
        requires
            self.wf(),
        ensures
            r == self@.feasible(upto_x as int, upto_y as int),
    {
        let width = self.width();
        let height = self.height();
        let mut y: usize = 0;
        while y < height
            invariant
                self.wf(),
                width == self@.width,
                height == self@.height,
                y <= height,
                forall|ax: int, ay: int|
                    #[trigger] self@.contains(ax, ay) && ay < y ==> self@.panel(
                        ax,
                        ay,
                    ).satisfiable_spec(self@, ax, ay, upto_x as int, upto_y as int),
            decreases height - y,
        {
            let mut x: usize = 0;
            while x < width
                invariant
                    self.wf(),
                    width == self@.width,
                    height == self@.height,
                    y < height,
                    x <= width,
                    forall|ax: int, ay: int|
                        #[trigger] self@.contains(ax, ay) && (ay < y || (ay == y && ax < x))
                            ==> self@.panel(ax, ay).satisfiable_spec(
                            self@,
                            ax,
                            ay,
                            upto_x as int,
                            upto_y as int,
                        ),
                decreases width - x,
            {
                let panel = self.panel_at(x, y);
                if !panel.satisfiable(x, y, upto_x, upto_y, self) {
                    proof {
                        assert(self@.contains(x as int, y as int));
                    }
                    return false;
                }
                x += 1;
            }
            y += 1;
        }
        true
    }

    /// Searches the assignments of the free cells from `(x, y)` on, row by row, each cell
    /// unlit first. A solution is returned and left in the grid; without one the grid is
    /// as it was.
    #[verifier::rlimit(50)]
    pub fn solve_from(&mut self, x: usize, y: usize) -> (r: Option<Grid>)
        requires
            old(self).wf(),
        ensures
            final(self).wf(),
            match old(self)@.search(x as int, y as int) {
                Some(v) => r matches Some(s) && s.wf() && s@ == v && final(self)@ == v,
                None => r is None && final(self)@ == old(self)@,
            },
        decreases old(self)@.rank(x as int, y as int),
    {
        if self.is_solved() {
            return Some(self.clone());
        }
        if x > 0 && !self.solveable(x - 1, y) {
            return None;
        }
        let width = self.width();
        let height = self.height();
        if y >= height {
            return None;
        }
        let (cx, cy) = if x >= width {
            (0, y + 1)
        } else {
            (x, y)
        };
        if cy >= height {
            return None;
        }
        proof {
            self@.lemma_unsolved_has_cells();
        }
        if self.fixed_at(cx, cy) {
            return self.solve_from(cx + 1, cy);
        }
        let ghost start = self@;
        let before = self.lit_at(cx, cy);
        self.set_lit_at(cx, cy, false);
        let unlit = self.solve_from(cx + 1, cy);
        if unlit.is_some() {
            return unlit;
        }
        self.set_lit_at(cx, cy, true);
        proof {
            assert(self@.cells =~= start.with_lit(cx as int, cy as int, true).cells);
        }
        let lit = self.solve_from(cx + 1, cy);
        if lit.is_some() {
            return lit;
        }
        self.set_lit_at(cx, cy, before);
        proof {
            assert(self@.cells =~= start.cells);
        }
        None
    }

    /// Solves the puzzle: every free cell is unlit to start with, and the first
    /// assignment that the search finds is returned in a grid of its own. The grid
    /// itself stays as it is.
    #[verifier::rlimit(50)]
    pub fn solve(&self) -> (r: Option<Grid>)
        requires
            self.wf(),
        ensures
            match self@.cleared().search(0, 0) {
                Some(v) => r matches Some(s) && s.wf() && s@ == v,
                None => r is None,
            },
            r matches Some(s) ==> s@.solved() && self@.same_puzzle(s@),
            r is None && !self@.has_pips() ==> forall|s: GridView|
                s.wf() && #[trigger] self@.same_puzzle(s) ==> !s.solved(),
    {
        let mut work = self.clone();
        work.reset();
        let r = work.solve_from(0, 0);
        proof {
            let cleared = self@.cleared();
            cleared.lemma_search_sound(0, 0);
            if r is None && !self@.has_pips() {
                assert forall|s: GridView|
                    s.wf() && #[trigger] self@.same_puzzle(s) && s.solved() implies false by {
                    assert(cleared.extends_to(s, 0, 0)) by {
                        assert forall|ax: int, ay: int| #[trigger] cleared.contains(ax, ay) implies {
                            &&& cleared.fixed(ax, ay) == s.fixed(ax, ay)
                            &&& cleared.symbol(ax, ay) == s.symbol(ax, ay)
                            &&& cleared.fixed(ax, ay) ==> cleared.lit(ax, ay) == s.lit(ax, ay)
                        } by {
                            assert(self@.contains(ax, ay));
                        }
                    }
                    assert(!cleared.has_pips()) by {
                        assert forall|ax: int, ay: int| #[trigger] cleared.contains(ax, ay) implies !(
                        cleared.symbol(ax, ay) is Pips) by {
                            assert(self@.contains(ax, ay));
                        }
                    }
                    cleared.lemma_search_complete(s, 0, 0);
                }
            }
            if let Some(v) = cleared.search(0, 0) {
                assert forall|ax: int, ay: int| #[trigger] self@.contains(ax, ay) implies {
                    &&& self@.fixed(ax, ay) == v.fixed(ax, ay)
                    &&& self@.symbol(ax, ay) == v.symbol(ax, ay)
                    &&& self@.fixed(ax, ay) ==> self@.lit(ax, ay) == v.lit(ax, ay)
                } by {
                    assert(cleared.contains(ax, ay));
                }
            }
        }
        r
    }
}

} // verus!
