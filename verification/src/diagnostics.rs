//! The cells of a grid that break the rule of their glyph.

use vstd::prelude::*;
use crate::grid::Gridlike;
use crate::model::GridView;
use crate::panel::PanelError;

verus! {

/// The complaint of the cell `(x, y)`, if it breaks its rule.
pub open spec fn complaint(grid: GridView, x: int, y: int) -> Seq<PanelError> {
    match grid.panel(x, y).satisfied_spec(grid, x, y) {
        Ok(_) => Seq::empty(),
        Err(e) => seq![e],
    }
}

/// The complaints of the first `cols` cells of row `y`, from left to right.
pub open spec fn complaints_in_row(grid: GridView, y: int, cols: int) -> Seq<PanelError>
    decreases cols,
{
    if cols <= 0 {
        Seq::empty()
    } else {
        complaints_in_row(grid, y, cols - 1) + complaint(grid, cols - 1, y)
    }
}

/// The complaints of the cells of the first `rows` rows, row by row.
pub open spec fn complaints(grid: GridView, rows: int) -> Seq<PanelError>
    decreases rows,
{
    if rows <= 0 {
        Seq::empty()
    } else {
        complaints(grid, rows - 1) + complaints_in_row(grid, rows - 1, grid.width as int)
    }
}

/// A grid without complaints in its first `rows` rows keeps every rule there.
proof fn lemma_no_complaints(grid: GridView, rows: int, x: int, y: int)
    requires
        complaints(grid, rows).len() == 0,
        0 <= x < grid.width,
        0 <= y < rows,
    ensures
        grid.panel(x, y).satisfied_spec(grid, x, y) is Ok,
    decreases rows,
{
    if y < rows - 1 {
        lemma_no_complaints(grid, rows - 1, x, y);
    } else {
        lemma_no_complaints_in_row(grid, y, grid.width as int, x);
    }
}

proof fn lemma_no_complaints_in_row(grid: GridView, y: int, cols: int, x: int)
    requires
        complaints_in_row(grid, y, cols).len() == 0,
        0 <= x < cols,
    ensures
        grid.panel(x, y).satisfied_spec(grid, x, y) is Ok,
    decreases cols,
{
    if x < cols - 1 {
        lemma_no_complaints_in_row(grid, y, cols - 1, x);
    }
}

proof fn lemma_solved_row_has_no_complaints(grid: GridView, y: int, cols: int)
    requires
        grid.solved(),
        0 <= y < grid.height,
        0 <= cols <= grid.width,
    ensures
        complaints_in_row(grid, y, cols).len() == 0,
    decreases cols,
{
    if cols > 0 {
        lemma_solved_row_has_no_complaints(grid, y, cols - 1);
        assert(grid.contains(cols - 1, y));
    }
}

proof fn lemma_solved_rows_have_no_complaints(grid: GridView, rows: int)
    requires
        grid.solved(),
        0 <= rows <= grid.height,
    ensures
        complaints(grid, rows).len() == 0,
    decreases rows,
{
    if rows > 0 {
        lemma_solved_rows_have_no_complaints(grid, rows - 1);
        lemma_solved_row_has_no_complaints(grid, rows - 1, grid.width as int);
    }
}

/// A grid is solved exactly when it has no complaints.
pub proof fn lemma_solved_iff_no_complaints(grid: GridView)
    ensures
        grid.solved() <==> complaints(grid, grid.height as int).len() == 0,
{
    if grid.solved() {
        lemma_solved_rows_have_no_complaints(grid, grid.height as int);
    }
    if complaints(grid, grid.height as int).len() == 0 {
        assert forall|x: int, y: int| #[trigger] grid.contains(x, y) implies grid.panel(
            x,
            y,
        ).satisfied_spec(grid, x, y) is Ok by {
            lemma_no_complaints(grid, grid.height as int, x, y);
        }
    }
}

/// Lists what is wrong with the grid: one complaint for each cell that breaks the rule
/// of its glyph, row by row.
pub fn get_errors<G: Gridlike>(grid: &G) -> (errors: Vec<PanelError>)
    requires
        grid.wf(),
    ensures
        errors@ == complaints(grid@, grid@.height as int),
{
    proof {
        grid.lemma_wf();
    }
    let width = grid.width();
    let height = grid.height();
    let mut errors: Vec<PanelError> = Vec::new();
    let mut y: usize = 0;
    while y < height
        invariant
            grid.wf(),
            grid@.wf(),
            width == grid@.width,
            height == grid@.height,
            y <= height,
            errors@ == complaints(grid@, y as int),
        decreases height - y,
    {
        let ghost before = errors@;
        let mut x: usize = 0;
        proof {
            assert(errors@ =~= before + complaints_in_row(grid@, y as int, 0));
        }
        while x < width
            invariant
                grid.wf(),
                grid@.wf(),
                width == grid@.width,
                height == grid@.height,
                y < height,
                x <= width,
                before == complaints(grid@, y as int),
                errors@ == before + complaints_in_row(grid@, y as int, x as int),
            decreases width - x,
        {
            let ghost row = complaints_in_row(grid@, y as int, x as int);
            let panel = grid.panel_at(x, y);
            match panel.satisfied(x, y, grid) {
                Ok(_) => {
                    proof {
                        assert(errors@ =~= before + (row + complaint(grid@, x as int, y as int)));
                    }
                },
                Err(e) => {
                    errors.push(e);
                    proof {
                        assert(errors@ =~= before + (row + complaint(grid@, x as int, y as int)));
                    }
                },
            }
            x += 1;
        }
        y += 1;
    }
    errors
}

} // verus!
