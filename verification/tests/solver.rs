use taiji::grid::{Grid, Gridlike};
use taiji::panel::Panel;
use taiji::symbol::{Color, Symbol};

fn panels(g: &Grid) -> Vec<Panel> {
    let mut v = vec![];
    for y in 0..g.height() {
        for x in 0..g.width() {
            v.push(g.panel_at(x, y));
        }
    }
    v
}

#[test]
fn single_plain_cell_solves_to_unlit() {
    let g = Grid::new(1, 1);
    let s = g.solve().unwrap();
    assert_eq!(s.lit_at(0, 0), false);

    let mut g = Grid::new(1, 1);
    g.set_lit_at(0, 0, true);
    let s = g.solve().unwrap();
    assert_eq!(s.lit_at(0, 0), false);
    // The grid that was asked keeps its state.
    assert_eq!(g.lit_at(0, 0), true);
}

#[test]
fn flower_with_four_fixed_lit_neighbours_is_lit() {
    let mut g = Grid::new(3, 3);
    g.set_symbol_at(1, 1, Symbol::Petals { count: 4 });
    for (x, y) in [(1, 0), (0, 1), (2, 1), (1, 2)] {
        g.set_lit_at(x, y, true);
        g.set_fixed_at(x, y, true);
    }
    assert!(!g.is_solved());
    let s = g.solve().unwrap();
    assert!(s.is_solved());
    assert_eq!(s.lit_at(1, 1), true);
    for (x, y) in [(1, 0), (0, 1), (2, 1), (1, 2)] {
        assert_eq!(s.lit_at(x, y), true);
        assert_eq!(s.fixed_at(x, y), true);
    }
    for (x, y) in [(0, 0), (2, 0), (0, 2), (2, 2)] {
        assert_eq!(s.lit_at(x, y), false);
    }
    assert_eq!(s.symbol_at(1, 1), Some(Symbol::Petals { count: 4 }));
}

#[test]
fn lozanges_that_cannot_meet_are_unsolvable() {
    let mut g = Grid::new(6, 6);
    for y in 0..6 {
        for x in 0..6 {
            g.set_fixed_at(x, y, true);
        }
    }
    g.set_lit_at(0, 0, true);
    g.set_symbol_at(0, 0, Symbol::Lozange { color: Color::Purple });
    g.set_symbol_at(3, 3, Symbol::Lozange { color: Color::Purple });
    g.set_fixed_at(5, 5, false);
    g.set_fixed_at(4, 5, false);
    g.set_fixed_at(2, 4, false);
    let before = panels(&g);
    assert!(g.solve().is_none());
    assert_eq!(before, panels(&g));
}

#[test]
fn search_tries_unlit_first_row_by_row() {
    let mut g = Grid::new(3, 1);
    g.set_symbol_at(0, 0, Symbol::Pips { count: 2, color: Color::Blue });
    let s = g.solve().unwrap();
    assert_eq!(
        (s.lit_at(0, 0), s.lit_at(1, 0), s.lit_at(2, 0)),
        (false, false, true)
    );
}

#[test]
fn solve_from_leaves_the_solution_or_the_start() {
    let mut g = Grid::new(3, 1);
    g.set_symbol_at(0, 0, Symbol::Pips { count: 2, color: Color::Blue });
    let s = g.solve_from(0, 0).unwrap();
    assert_eq!(panels(&s), panels(&g));
    assert!(g.is_solved());

    let mut g = Grid::new(2, 1);
    g.set_symbol_at(0, 0, Symbol::Lozange { color: Color::Green });
    let before = panels(&g);
    assert!(g.solve_from(0, 0).is_none());
    assert_eq!(before, panels(&g));
    // Past the last cell nothing is left to try.
    assert!(g.solve_from(0, 7).is_none());
    assert!(g.solve_from(9, 0).is_none());
}

#[test]
fn solved_and_solveable() {
    assert!(Grid::new(0, 0).is_solved());
    assert!(Grid::new(4, 4).is_solved());
    let mut g = Grid::new(3, 3);
    g.set_symbol_at(1, 1, Symbol::Petals { count: 1 });
    assert!(!g.is_solved());
    // Nothing is known before the scan reaches the flower.
    assert!(g.solveable(2, 0));
    assert!(g.solveable(0, 1));
    // Three known neighbours are unlit as the flower is: two too many.
    assert!(!g.solveable(2, 1));
    // With all four neighbours known and unlike, one petal cannot be had.
    g.set_lit_at(1, 1, true);
    assert!(!g.solveable(2, 2));
    g.set_lit_at(1, 2, true);
    assert!(g.solveable(2, 2));
    assert!(g.is_solved());
}

#[test]
fn rotate_square_by_quarter_turns() {
    let mut g = Grid::new(3, 3);
    g.set_lit_at(0, 0, true);
    g.set_fixed_at(1, 0, true);
    g.set_symbol_at(2, 1, Symbol::Line { diagonal: true, color: Color::White });
    let start = panels(&g);
    g.rotate();
    assert_eq!((g.width(), g.height()), (3, 3));
    assert_eq!(g.lit_at(2, 0), true);
    assert_eq!(g.lit_at(0, 0), false);
    assert_eq!(g.fixed_at(2, 1), true);
    assert_eq!(g.symbol_at(1, 2), Some(Symbol::Line { diagonal: true, color: Color::White }));
    assert_eq!(g.symbols().len(), 1);
    assert_ne!(start, panels(&g));
    g.rotate();
    g.rotate();
    g.rotate();
    assert_eq!(start, panels(&g));
}

#[test]
fn rotate_oblong_by_half_turns() {
    let mut g = Grid::new(4, 2);
    g.set_lit_at(0, 0, true);
    g.set_fixed_at(3, 0, true);
    g.set_symbol_at(1, 1, Symbol::Petals { count: 2 });
    let start = panels(&g);
    g.rotate();
    assert_eq!((g.width(), g.height()), (4, 2));
    assert_eq!(g.lit_at(3, 1), true);
    assert_eq!(g.fixed_at(0, 1), true);
    assert_eq!(g.symbol_at(2, 0), Some(Symbol::Petals { count: 2 }));
    g.rotate();
    assert_eq!(start, panels(&g));
}

#[test]
fn reset_unlights_free_cells_only() {
    let mut g = Grid::new(2, 2);
    g.set_lit_at(0, 0, true);
    g.set_lit_at(1, 1, true);
    g.set_fixed_at(1, 1, true);
    g.set_fixed_at(0, 1, true);
    g.reset();
    assert_eq!(g.lit_at(0, 0), false);
    assert_eq!(g.lit_at(1, 1), true);
    assert_eq!(g.lit_at(0, 1), false);
    assert_eq!(g.fixed_at(1, 1), true);
    assert_eq!(g.fixed_at(0, 1), true);
}
