//! Cells that go with tagged cells: where a tagged cell lies in the region of a line, the
//! cell that lies likewise in the region of every other line of that colour.

use vstd::prelude::*;
use crate::grid::Gridlike;
use crate::model::GridView;
use crate::neighbourhood::{overlaps_pred, Neighbourhood};
use crate::panel::Panel;
use crate::rotation::Rotation;
use crate::symbol::{Color, Symbol};

verus! {

/// How many entries of `a` land on an offset of `b` when turned by `rot`.
pub open spec fn overlap(a: Seq<(i8, i8, Panel)>, b: Seq<(i8, i8, Panel)>, rot: Rotation) -> nat {
    a.filter(overlaps_pred(b, rot)).len()
}

/// The turn under which most entries of `a` land on an offset of `b`; among several such
/// turns the greatest.
pub open spec fn best_turn(a: Seq<(i8, i8, Panel)>, b: Seq<(i8, i8, Panel)>) -> Rotation {
    let c0 = overlap(a, b, Rotation::D0);
    let c1 = overlap(a, b, Rotation::D90);
    let c2 = overlap(a, b, Rotation::D180);
    let c3 = overlap(a, b, Rotation::D270);
    if c3 >= c0 && c3 >= c1 && c3 >= c2 {
        Rotation::D270
    } else if c2 >= c0 && c2 >= c1 {
        Rotation::D180
    } else if c1 >= c0 {
        Rotation::D90
    } else {
        Rotation::D0
    }
}

/// The cell that goes with the tagged cell `(tx, ty)` by way of the line at `(lx, ly)`,
/// whose kind and colour are given, and the cell `(ox, oy)`: if that cell holds another
/// line of the same colour, the cell that lies from it as the tagged cell lies from the
/// first line, after the best turn if either line is diagonal; and only if the grid has
/// such a cell.
pub open spec fn cotag(
    grid: GridView,
    tx: int,
    ty: int,
    lx: int,
    ly: int,
    diagonal: bool,
    color: Color,
    ox: int,
    oy: int,
) -> Seq<(usize, usize)> {
    if ox == lx && oy == ly {
        Seq::empty()
    } else {
        match grid.symbol(ox, oy) {
            Symbol::Line { diagonal: other_diagonal, color: other_color } => {
                let rot = if diagonal || other_diagonal {
                    best_turn(grid.region(None, lx, ly), grid.region(None, ox, oy))
                } else {
                    Rotation::D0
                };
                let step = rot.apply(tx - lx, ty - ly);
                if other_color == color && grid.contains(ox + step.0, oy + step.1) {
                    seq![((ox + step.0) as usize, (oy + step.1) as usize)]
                } else {
                    Seq::empty()
                }
            },
            _ => Seq::empty(),
        }
    }
}

/// The cells that go with the tagged cell by way of one line and the first `cols` cells
/// of row `oy`.
pub open spec fn cotags_in_row(
    grid: GridView,
    tx: int,
    ty: int,
    lx: int,
    ly: int,
    diagonal: bool,
    color: Color,
    oy: int,
    cols: int,
) -> Seq<(usize, usize)>
    decreases cols,
{
    if cols <= 0 {
        Seq::empty()
    } else {
        cotags_in_row(grid, tx, ty, lx, ly, diagonal, color, oy, cols - 1) + cotag(
            grid,
            tx,
            ty,
            lx,
            ly,
            diagonal,
            color,
            cols - 1,
            oy,
        )
    }
}

/// The cells that go with the tagged cell by way of one line and the first `rows` rows.
pub open spec fn cotags_of_line(
    grid: GridView,
    tx: int,
    ty: int,
    lx: int,
    ly: int,
    diagonal: bool,
    color: Color,
    rows: int,
) -> Seq<(usize, usize)>
    decreases rows,
{
    if rows <= 0 {
        Seq::empty()
    } else {
        cotags_of_line(grid, tx, ty, lx, ly, diagonal, color, rows - 1) + cotags_in_row(
            grid,
            tx,
            ty,
            lx,
            ly,
            diagonal,
            color,
            rows - 1,
            grid.width as int,
        )
    }
}

/// The cells that go with the tagged cell by way of one entry of its region: none unless
/// the entry holds a line.
pub open spec fn cotags_of_entry(grid: GridView, tx: int, ty: int, entry: (i8, i8, Panel)) -> Seq<
    (usize, usize),
> {
    match entry.2.symbol {
        Symbol::Line { diagonal, color } => cotags_of_line(
            grid,
            tx,
            ty,
            tx + entry.0,
            ty + entry.1,
            diagonal,
            color,
            grid.height as int,
        ),
        _ => Seq::empty(),
    }
}

/// The cells that go with the tagged cell by way of the first `k` entries of its region.
pub open spec fn cotags_of_tag(grid: GridView, tx: int, ty: int, k: int) -> Seq<(usize, usize)>
    decreases k,
{
    if k <= 0 {
        Seq::empty()
    } else {
        cotags_of_tag(grid, tx, ty, k - 1) + cotags_of_entry(
            grid,
            tx,
            ty,
            grid.region(None, tx, ty)[k - 1],
        )
    }
}

/// The cells that go with the first `n` tagged cells.
pub open spec fn cotags(grid: GridView, tagged: Seq<(usize, usize)>, n: int) -> Seq<(usize, usize)>
    decreases n,
{
    if n <= 0 {
        Seq::empty()
    } else {
        cotags(grid, tagged, n - 1) + cotags_of_tag(
            grid,
            tagged[n - 1].0 as int,
            tagged[n - 1].1 as int,
            grid.region(None, tagged[n - 1].0 as int, tagged[n - 1].1 as int).len() as int,
        )
    }
}

/// Picks the turn under which most cells of `a` land on a cell of `b`.
pub fn pick_turn(a: &Neighbourhood, b: &Neighbourhood) -> (rot: Rotation)
    ensures
        rot == best_turn(a.contents@, b.contents@),
{
    let c0 = a.rotated_overlap(b, Rotation::D0);
    let c1 = a.rotated_overlap(b, Rotation::D90);
    let c2 = a.rotated_overlap(b, Rotation::D180);
    let c3 = a.rotated_overlap(b, Rotation::D270);
    if c3 >= c0 && c3 >= c1 && c3 >= c2 {
        Rotation::D270
    } else if c2 >= c0 && c2 >= c1 {
        Rotation::D180
    } else if c1 >= c0 {
        Rotation::D90
    } else {
        Rotation::D0
    }
}

/// Finds the cells that go with the tagged cell by way of the line at `(lx, ly)`.
#[verifier::rlimit(50)]
fn cotag_line<G: Gridlike>(
    grid: &G,
    tx: usize,
    ty: usize,
    lx: usize,
    ly: usize,
    diagonal: bool,
    color: Color,
    out: &mut Vec<(usize, usize)>,
)
    requires
        grid.wf(),
        grid@.contains(tx as int, ty as int),
        grid@.contains(lx as int, ly as int),
    ensures
        final(out)@ == old(out)@ + cotags_of_line(
            grid@,
            tx as int,
            ty as int,
            lx as int,
            ly as int,
            diagonal,
            color,
            grid@.height as int,
        ),
{
    proof {
        grid.lemma_wf();
    }
    let width = grid.width();
    let height = grid.height();
    let mine = grid.neighbourhood(lx, ly);
    let rx: i16 = tx as i16 - lx as i16;
    let ry: i16 = ty as i16 - ly as i16;
    let ghost start = out@;
    let mut oy: usize = 0;
    proof {
        assert(out@ =~= start + cotags_of_line(
            grid@,
            tx as int,
            ty as int,
            lx as int,
            ly as int,
            diagonal,
            color,
            0,
        ));
    }
    while oy < height
        invariant
            grid.wf(),
            grid@.wf(),
            grid@.contains(tx as int, ty as int),
            grid@.contains(lx as int, ly as int),
            width == grid@.width,
            height == grid@.height,
            oy <= height,
            rx == tx - lx,
            ry == ty - ly,
            mine.contents@ == grid@.region(None, lx as int, ly as int),
            out@ == start + cotags_of_line(
                grid@,
                tx as int,
                ty as int,
                lx as int,
                ly as int,
                diagonal,
                color,
                oy as int,
            ),
        decreases height - oy,
    {
        let ghost before = out@;
        let ghost done = cotags_of_line(
            grid@,
            tx as int,
            ty as int,
            lx as int,
            ly as int,
            diagonal,
            color,
            oy as int,
        );
        let mut ox: usize = 0;
        proof {
            assert(out@ =~= before + cotags_in_row(
                grid@,
                tx as int,
                ty as int,
                lx as int,
                ly as int,
                diagonal,
                color,
                oy as int,
                0,
            ));
        }
        while ox < width
            invariant
                grid.wf(),
                grid@.wf(),
                grid@.contains(tx as int, ty as int),
                grid@.contains(lx as int, ly as int),
                width == grid@.width,
                height == grid@.height,
                oy < height,
                ox <= width,
                rx == tx - lx,
                ry == ty - ly,
                mine.contents@ == grid@.region(None, lx as int, ly as int),
                before == start + done,
                out@ == before + cotags_in_row(
                    grid@,
                    tx as int,
                    ty as int,
                    lx as int,
                    ly as int,
                    diagonal,
                    color,
                    oy as int,
                    ox as int,
                ),
            decreases width - ox,
        {
            let ghost row = cotags_in_row(
                grid@,
                tx as int,
                ty as int,
                lx as int,
                ly as int,
                diagonal,
                color,
                oy as int,
                ox as int,
            );
            let ghost one = cotag(
                grid@,
                tx as int,
                ty as int,
                lx as int,
                ly as int,
                diagonal,
                color,
                ox as int,
                oy as int,
            );
            if !(ox == lx && oy == ly) {
                match grid.panel_at(ox, oy).symbol {
                    Symbol::Line { diagonal: other_diagonal, color: other_color } => {
                        if other_color == color {
                            let rot = if diagonal || other_diagonal {
                                let other = grid.neighbourhood(ox, oy);
                                pick_turn(&mine, &other)
                            } else {
                                Rotation::D0
                            };
                            let step = rot.rotate_wide(rx, ry);
                            let cx: i16 = ox as i16 + step.0;
                            let cy: i16 = oy as i16 + step.1;
                            if cx >= 0 && cx < width as i16 && cy >= 0 && cy < height as i16 {
                                out.push((cx as usize, cy as usize));
                            }
                        }
                    },
                    _ => {},
                }
            }
            proof {
                assert(out@ =~= before + (row + one));
            }
            ox += 1;
        }
        proof {
            assert(out@ =~= start + (done + cotags_in_row(
                grid@,
                tx as int,
                ty as int,
                lx as int,
                ly as int,
                diagonal,
                color,
                oy as int,
                width as int,
            )));
        }
        oy += 1;
    }
}

/// Lists the cells that go with the tagged cells: for each tagged cell, in the order
/// given, and each line in its region, the cell that lies likewise in the region of
/// every other line of that colour.
pub fn get_cotagged<G: Gridlike>(grid: &G, tagged: &Vec<(usize, usize)>) -> (cotagged: Vec<
    (usize, usize),
>)
    requires
        grid.wf(),
        forall|i: int|
            0 <= i < tagged@.len() ==> grid@.contains(
                (#[trigger] tagged@[i]).0 as int,
                tagged@[i].1 as int,
            ),
    ensures
        cotagged@ == cotags(grid@, tagged@, tagged@.len() as int),
{
    proof {
        grid.lemma_wf();
    }
    let mut out: Vec<(usize, usize)> = Vec::new();
    let mut n: usize = 0;
    while n < tagged.len()
        invariant
            grid.wf(),
            grid@.wf(),
            n <= tagged@.len(),
            forall|i: int|
                0 <= i < tagged@.len() ==> grid@.contains(
                    (#[trigger] tagged@[i]).0 as int,
                    tagged@[i].1 as int,
                ),
            out@ == cotags(grid@, tagged@, n as int),
        decreases tagged@.len() - n,
    {
        let (tx, ty) = tagged[n];
        let region = grid.neighbourhood(tx, ty);
        let ghost before = out@;
        let mut k: usize = 0;
        proof {
            grid@.lemma_region(None, tx as int, ty as int);
            assert(out@ =~= before + cotags_of_tag(grid@, tx as int, ty as int, 0));
        }
        while k < region.contents.len()
            invariant
                grid.wf(),
                grid@.wf(),
                n < tagged@.len(),
                tagged@[n as int] == (tx, ty),
                grid@.contains(tx as int, ty as int),
                k <= region.contents@.len(),
                region.contents@ == grid@.region(None, tx as int, ty as int),
                grid@.entries_sound(region.contents@, None, tx as int, ty as int),
                before == cotags(grid@, tagged@, n as int),
                out@ == before + cotags_of_tag(grid@, tx as int, ty as int, k as int),
            decreases region.contents@.len() - k,
        {
            let e = region.contents[k];
            let ghost done = cotags_of_tag(grid@, tx as int, ty as int, k as int);
            match e.2.symbol {
                Symbol::Line { diagonal, color } => {
                    let lx = (tx as i16 + e.0 as i16) as usize;
                    let ly = (ty as i16 + e.1 as i16) as usize;
                    cotag_line(grid, tx, ty, lx, ly, diagonal, color, &mut out);
                },
                _ => {},
            }
            proof {
                assert(out@ =~= before + (done + cotags_of_entry(grid@, tx as int, ty as int, e)));
            }
            k += 1;
        }
        n += 1;
    }
    out
}

} // verus!
