use taiji::diagnostics::get_errors;
use taiji::grid::{Grid, Gridlike};
use taiji::highlight::get_cotagged;
use taiji::panel::{PanelError, PanelLoc};
use taiji::symbol::{Color, Symbol};

#[test]
fn plain_is_always_satisfied() {
    let g = Grid::new(2, 2);
    assert_eq!(g.panel_at(0, 0).satisfied(0, 0, &g), Ok(()));
    assert!(g.panel_at(0, 0).satisfiable(0, 0, 1, 1, &g));
}

#[test]
fn pips_count_the_region() {
    let mut g = Grid::new(3, 3);
    g.set_symbol_at(1, 1, Symbol::Pips { count: 9, color: Color::Blue });
    assert_eq!(g.panel_at(1, 1).satisfied(1, 1, &g), Ok(()));
    g.set_symbol_at(1, 1, Symbol::Pips { count: 3, color: Color::Blue });
    assert_eq!(
        g.panel_at(1, 1).satisfied(1, 1, &g),
        Err(PanelError::WrongNeighbourhoodSize { pos: PanelLoc { x: 1, y: 1 }, required: 3, have: 9 })
    );
    // Cutting the region down to three cells satisfies the pips.
    for (x, y) in [(0, 0), (1, 0), (2, 0), (0, 2), (1, 2), (2, 2)] {
        g.set_lit_at(x, y, true);
    }
    assert_eq!(g.panel_at(1, 1).satisfied(1, 1, &g), Ok(()));
    // Pips add up over the region.
    g.set_symbol_at(0, 1, Symbol::Pips { count: 4, color: Color::Blue });
    assert_eq!(
        g.panel_at(1, 1).satisfied(1, 1, &g),
        Err(PanelError::WrongNeighbourhoodSize { pos: PanelLoc { x: 1, y: 1 }, required: 7, have: 3 })
    );
    // A sum of nothing is accepted whatever the size.
    g.set_symbol_at(0, 1, Symbol::Pips { count: -3, color: Color::Blue });
    assert_eq!(g.panel_at(1, 1).satisfied(1, 1, &g), Ok(()));
}

#[test]
fn pips_of_two_colours_clash() {
    let mut g = Grid::new(3, 3);
    g.set_symbol_at(0, 0, Symbol::Pips { count: 3, color: Color::Blue });
    g.set_symbol_at(2, 2, Symbol::Pips { count: 2, color: Color::Green });
    assert_eq!(
        g.panel_at(0, 0).satisfied(0, 0, &g),
        Err(PanelError::OverlappingPips {
            pos: PanelLoc { x: 0, y: 0 },
            other_pos: PanelLoc { x: 2, y: 2 },
            color: Color::Blue,
            other_color: Color::Green,
        })
    );
    assert_eq!(
        g.panel_at(2, 2).satisfied(2, 2, &g),
        Err(PanelError::OverlappingPips {
            pos: PanelLoc { x: 2, y: 2 },
            other_pos: PanelLoc { x: 0, y: 0 },
            color: Color::Green,
            other_color: Color::Blue,
        })
    );
}

#[test]
fn pips_prune_a_lit_seed_only() {
    let mut g = Grid::new(6, 6);
    g.set_symbol_at(0, 0, Symbol::Pips { count: 3, color: Color::Blue });
    let unlit = g.panel_at(0, 0);
    // An unlit seed is never pruned.
    assert!(unlit.satisfiable(0, 0, 3, 0, &g));
    assert!(unlit.satisfiable(0, 0, 5, 5, &g));
    for x in 0..4 {
        g.set_lit_at(x, 0, true);
    }
    let lit = g.panel_at(0, 0);
    assert!(lit.satisfiable(0, 0, 0, 0, &g));
    assert!(lit.satisfiable(0, 0, 2, 0, &g));
    // Four known cells are more than three pips.
    assert!(!lit.satisfiable(0, 0, 3, 0, &g));
    // The pips of the colour count wherever they stand.
    g.set_symbol_at(5, 5, Symbol::Pips { count: 1, color: Color::Blue });
    assert!(lit.satisfiable(0, 0, 3, 0, &g));
    // Pips of another colour do not.
    g.set_symbol_at(5, 5, Symbol::Pips { count: 1, color: Color::Green });
    assert!(!lit.satisfiable(0, 0, 3, 0, &g));
    // A total of nothing is never pruned.
    g.set_symbol_at(5, 5, Symbol::Pips { count: -3, color: Color::Blue });
    assert!(lit.satisfiable(0, 0, 3, 0, &g));
}

#[test]
fn lines_compare_shapes() {
    let mut g = Grid::new(4, 1);
    g.set_symbol_at(0, 0, Symbol::Line { diagonal: false, color: Color::Blue });
    g.set_symbol_at(3, 0, Symbol::Line { diagonal: false, color: Color::Blue });
    g.set_lit_at(0, 0, true);
    g.set_lit_at(1, 0, true);
    // One region reaches right of its line, the other left.
    assert_eq!(
        g.panel_at(0, 0).satisfied(0, 0, &g),
        Err(PanelError::LineNeighbourhoodWrongShape {
            pos: PanelLoc { x: 0, y: 0 },
            other_pos: PanelLoc { x: 3, y: 0 },
        })
    );
    // A diagonal line on either side lets the shapes be turned.
    g.set_symbol_at(3, 0, Symbol::Line { diagonal: true, color: Color::Blue });
    assert_eq!(g.panel_at(0, 0).satisfied(0, 0, &g), Ok(()));
    assert_eq!(g.panel_at(3, 0).satisfied(3, 0, &g), Ok(()));
    // Lines of different colours must differ in shape.
    g.set_symbol_at(3, 0, Symbol::Line { diagonal: true, color: Color::Green });
    assert_eq!(
        g.panel_at(0, 0).satisfied(0, 0, &g),
        Err(PanelError::DuplicateLineNeighbourhoodShape {
            pos: PanelLoc { x: 0, y: 0 },
            other_pos: PanelLoc { x: 3, y: 0 },
        })
    );
    g.set_symbol_at(3, 0, Symbol::Line { diagonal: false, color: Color::Green });
    assert_eq!(g.panel_at(0, 0).satisfied(0, 0, &g), Ok(()));
}

#[test]
fn lines_are_never_pruned() {
    let mut g = Grid::new(6, 6);
    g.set_symbol_at(1, 1, Symbol::Line { diagonal: false, color: Color::Blue });
    g.set_symbol_at(0, 4, Symbol::Line { diagonal: false, color: Color::Blue });
    for (x, y) in [(1, 0), (0, 1), (1, 1), (2, 1), (2, 2)] {
        g.set_lit_at(x, y, true);
    }
    let panel = g.panel_at(1, 1);
    for y in 0..6 {
        for x in 0..6 {
            assert!(panel.satisfiable(1, 1, x, y, &g));
        }
    }
}

#[test]
fn lozange_wants_two_of_its_colour() {
    let mut g = Grid::new(3, 3);
    g.set_symbol_at(1, 1, Symbol::Lozange { color: Color::Yellow });
    assert_eq!(
        g.panel_at(1, 1).satisfied(1, 1, &g),
        Err(PanelError::LozangeCount { pos: PanelLoc { x: 1, y: 1 }, saw: 1, color: Color::Yellow })
    );
    g.set_symbol_at(0, 0, Symbol::Petals { count: 1 });
    assert_eq!(g.panel_at(1, 1).satisfied(1, 1, &g), Ok(()));
    g.set_symbol_at(2, 2, Symbol::Pips { count: 9, color: Color::Yellow });
    assert_eq!(
        g.panel_at(1, 1).satisfied(1, 1, &g),
        Err(PanelError::LozangeCount { pos: PanelLoc { x: 1, y: 1 }, saw: 3, color: Color::Yellow })
    );
    // A flower without petals is not yellow, and a glyph outside the region does not count.
    g.set_symbol_at(0, 0, Symbol::Petals { count: 0 });
    assert_eq!(g.panel_at(1, 1).satisfied(1, 1, &g), Ok(()));
    g.set_lit_at(2, 2, true);
    assert_eq!(
        g.panel_at(1, 1).satisfied(1, 1, &g),
        Err(PanelError::LozangeCount { pos: PanelLoc { x: 1, y: 1 }, saw: 1, color: Color::Yellow })
    );
}

#[test]
fn petals_count_like_neighbours() {
    let mut g = Grid::new(3, 3);
    g.set_symbol_at(1, 1, Symbol::Petals { count: 4 });
    assert_eq!(g.panel_at(1, 1).satisfied(1, 1, &g), Ok(()));
    g.set_lit_at(1, 0, true);
    assert_eq!(
        g.panel_at(1, 1).satisfied(1, 1, &g),
        Err(PanelError::PetalCount { pos: PanelLoc { x: 1, y: 1 }, required: 4, saw: 3 })
    );
    // In a corner only two cells can be alike.
    g.set_symbol_at(0, 0, Symbol::Petals { count: 2 });
    assert_eq!(
        g.panel_at(0, 0).satisfied(0, 0, &g),
        Err(PanelError::PetalCount { pos: PanelLoc { x: 0, y: 0 }, required: 2, saw: 1 })
    );
}

#[test]
fn petals_stay_infeasible_at_later_horizons() {
    let mut g = Grid::new(3, 3);
    g.set_symbol_at(1, 1, Symbol::Petals { count: 1 });
    g.set_lit_at(1, 1, true);
    g.set_lit_at(1, 0, true);
    g.set_lit_at(2, 1, true);
    let panel = g.panel_at(1, 1);
    let mut failed = false;
    for y in 0..3 {
        for x in 0..3 {
            let ok = panel.satisfiable(1, 1, x, y, &g);
            assert!(!(failed && ok));
            failed = failed || !ok;
        }
    }
    assert!(failed);
    assert!(panel.satisfiable(1, 1, 1, 1, &g));
    assert!(!panel.satisfiable(1, 1, 2, 1, &g));
}

#[test]
fn fixed_cells_are_known_ahead_of_the_scan() {
    let mut g = Grid::new(3, 3);
    g.set_symbol_at(1, 1, Symbol::Petals { count: 4 });
    g.set_lit_at(1, 1, true);
    g.set_lit_at(1, 0, true);
    g.set_lit_at(0, 1, true);
    let panel = g.panel_at(1, 1);
    assert!(panel.satisfiable(1, 1, 1, 1, &g));
    // The unlit cell below is fixed, so it counts before the scan gets there.
    g.set_fixed_at(1, 2, true);
    assert!(!panel.satisfiable(1, 1, 1, 1, &g));
}

#[test]
fn errors_are_listed_row_by_row() {
    let mut g = Grid::new(3, 3);
    assert_eq!(get_errors(&g), vec![]);
    g.set_symbol_at(2, 2, Symbol::Petals { count: 1 });
    g.set_symbol_at(0, 0, Symbol::Lozange { color: Color::Black });
    let errors = get_errors(&g);
    assert_eq!(
        errors,
        vec![
            PanelError::LozangeCount { pos: PanelLoc { x: 0, y: 0 }, saw: 1, color: Color::Black },
            PanelError::PetalCount { pos: PanelLoc { x: 2, y: 2 }, required: 1, saw: 2 },
        ]
    );
    assert_eq!(errors[0].get_pos(), PanelLoc { x: 0, y: 0 });
    assert_eq!(errors[1].get_pos(), PanelLoc { x: 2, y: 2 });
}

#[test]
fn cotagged_cells_follow_the_other_line() {
    let mut g = Grid::new(5, 1);
    g.set_symbol_at(0, 0, Symbol::Line { diagonal: false, color: Color::Blue });
    g.set_symbol_at(3, 0, Symbol::Line { diagonal: false, color: Color::Blue });
    for x in [0, 1, 3, 4] {
        g.set_lit_at(x, 0, true);
    }
    assert_eq!(get_cotagged(&g, &vec![(1, 0)]), vec![(4, 0)]);
    assert_eq!(get_cotagged(&g, &vec![(4, 0)]), vec![(1, 0)]);
    assert_eq!(get_cotagged(&g, &vec![(2, 0)]), vec![]);
    assert_eq!(get_cotagged(&g, &vec![(0, 0), (1, 0)]), vec![(3, 0), (4, 0)]);
    // A line of another colour is no partner.
    g.set_symbol_at(3, 0, Symbol::Line { diagonal: false, color: Color::Green });
    assert_eq!(get_cotagged(&g, &vec![(1, 0)]), vec![]);
}

#[test]
fn cotagged_cells_turn_with_a_diagonal_line() {
    let mut g = Grid::new(5, 1);
    g.set_symbol_at(0, 0, Symbol::Line { diagonal: false, color: Color::Blue });
    g.set_symbol_at(4, 0, Symbol::Line { diagonal: false, color: Color::Blue });
    for x in [0, 1, 3, 4] {
        g.set_lit_at(x, 0, true);
    }
    // Without a turn the partner of (1, 0) would lie right of the grid.
    assert_eq!(get_cotagged(&g, &vec![(1, 0)]), vec![]);
    g.set_symbol_at(4, 0, Symbol::Line { diagonal: true, color: Color::Blue });
    assert_eq!(get_cotagged(&g, &vec![(1, 0)]), vec![(3, 0)]);
}
