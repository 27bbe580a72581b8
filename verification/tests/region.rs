use taiji::grid::{Grid, Gridlike};
use taiji::neighbourhood::Neighbourhood;
use taiji::neighbourhood_text::{NeighbourhoodParseError, PanelLocParseError};
use taiji::panel::{Panel, PanelLoc};
use taiji::rotation::Rotation;
use taiji::symbol::{Color, Symbol};

fn offsets(n: &Neighbourhood) -> Vec<(i8, i8)> {
    n.contents.iter().map(|e| (e.0, e.1)).collect()
}

#[test]
fn flood_fill_of_an_empty_grid_is_the_grid() {
    let g = Grid::new(3, 3);
    let n = g.neighbourhood(1, 1);
    assert_eq!((n.offset_x, n.offset_y), (1, 1));
    assert_eq!(
        offsets(&n),
        vec![(-1, -1), (-1, 0), (-1, 1), (0, -1), (0, 0), (0, 1), (1, -1), (1, 0), (1, 1)]
    );
    assert_eq!(g.neighbourhood(0, 0).contents.len(), 9);
    assert_eq!(g.neighbourhood(1, 0).contents.len(), 9);
}

#[test]
fn flood_fill_stops_at_the_other_state() {
    let mut g = Grid::new(4, 3);
    // X X . .
    // . X . X
    // . . . X
    for (x, y) in [(0, 0), (1, 0), (1, 1), (3, 1), (3, 2)] {
        g.set_lit_at(x, y, true);
    }
    g.set_symbol_at(1, 1, Symbol::Lozange { color: Color::Green });
    g.set_fixed_at(0, 0, true);
    let n = g.neighbourhood(1, 0);
    assert_eq!(offsets(&n), vec![(-1, 0), (0, 0), (0, 1)]);
    assert_eq!(n.contents[0].2, Panel { filled: true, fixed: true, symbol: Symbol::Plain });
    assert_eq!(
        n.contents[2].2,
        Panel { filled: true, fixed: false, symbol: Symbol::Lozange { color: Color::Green } }
    );
    assert_eq!(offsets(&g.neighbourhood(3, 2)), vec![(0, -1), (0, 0)]);
    // The unlit cells hang together round the lit ones.
    let n = g.neighbourhood(0, 1);
    assert_eq!(offsets(&n), vec![(0, 0), (0, 1), (1, 1), (2, -1), (2, 0), (2, 1), (3, -1)]);
    assert!(n.contains(3, 0));
    assert!(n.contains(0, 2));
    assert!(!n.contains(1, 1));
    assert!(!n.contains(3, 1));
}

#[test]
fn bounded_fill_keeps_to_known_cells() {
    let mut g = Grid::new(3, 3);
    // A seed that the scan has not reached has no region.
    assert_eq!(g.neighbourhood_upto(1, 1, 0, 1).contents.len(), 0);
    assert_eq!(g.neighbourhood_upto(0, 2, 2, 1).contents.len(), 0);
    // At the seed itself the region is the part of the rows scanned so far.
    assert_eq!(
        offsets(&g.neighbourhood_upto(1, 1, 1, 1)),
        vec![(-1, -1), (-1, 0), (0, -1), (0, 0), (1, -1)]
    );
    assert_eq!(g.neighbourhood_upto(1, 1, 2, 2).contents.len(), 9);
    // A fixed cell ahead of the scan is known, and the fill goes on through it.
    g.set_fixed_at(1, 2, true);
    assert_eq!(
        offsets(&g.neighbourhood_upto(1, 1, 1, 1)),
        vec![(-1, -1), (-1, 0), (0, -1), (0, 0), (0, 1), (1, -1)]
    );
    // A free cell ahead of the scan blocks the way to what lies behind it.
    let mut g = Grid::new(3, 1);
    g.set_fixed_at(2, 0, true);
    assert_eq!(offsets(&g.neighbourhood_upto(0, 0, 0, 0)), vec![(0, 0)]);
    assert_eq!(offsets(&g.neighbourhood_upto(0, 0, 1, 0)), vec![(0, 0), (1, 0), (2, 0)]);
}

#[test]
fn region_text_errors() {
    assert_eq!(Neighbourhood::from_str("").err(), Some(NeighbourhoodParseError::PrematureEndToInput));
    assert_eq!(Neighbourhood::from_str("2E").err(), Some(NeighbourhoodParseError::PrematureEndToInput));
    assert_eq!(
        Neighbourhood::from_str("E\nO").err(),
        Some(NeighbourhoodParseError::PanelLocParseError(PanelLocParseError::Illformed))
    );
    assert_eq!(
        Neighbourhood::from_str("0A\nO").err(),
        Some(NeighbourhoodParseError::PanelLocParseError(PanelLocParseError::CouldntParseWidth))
    );
    let mut wide = String::from("1A\nO");
    for _ in 0..130 {
        wide.push(' ');
    }
    wide.push('#');
    assert_eq!(
        Neighbourhood::from_str(&wide).err(),
        Some(NeighbourhoodParseError::OffsetOutOfRange)
    );
}

#[test]
fn region_text_details() {
    // Without a seed mark the first place of the picture is the seed.
    let n = Neighbourhood::from_str("3C\n.#\n#").unwrap();
    assert_eq!((n.offset_x, n.offset_y), (2, 2));
    assert_eq!(offsets(&n), vec![(0, 0), (0, 1), (1, 0)]);
    assert!(n.contents.iter().all(|e| e.2 == Panel { filled: true, fixed: false, symbol: Symbol::Plain }));
    // Columns count characters, not bytes.
    let n = Neighbourhood::from_str("1A\n\u{e9}O#").unwrap();
    assert_eq!(offsets(&n), vec![(0, 0), (1, 0)]);
    // The picture tells lit from unlit cells, and shows the seed where it is no entry.
    let n = Neighbourhood {
        offset_x: 0,
        offset_y: 1,
        contents: vec![(1, 1, Panel::default()), (-1, 0, Panel { filled: true, ..Panel::default() })],
    };
    assert_eq!(n.to_string(), "1B\n#O \n  .\n\n");
    assert_eq!(n.bounds(), (-1, 0, 1, 1));
}

#[test]
fn panel_loc_errors() {
    assert_eq!(PanelLoc::from_str(""), Err(PanelLocParseError::Illformed));
    assert_eq!(PanelLoc::from_str("A"), Err(PanelLocParseError::Illformed));
    assert_eq!(PanelLoc::from_str("12"), Err(PanelLocParseError::Illformed));
    assert_eq!(PanelLoc::from_str("12b"), Err(PanelLocParseError::Illformed));
    assert_eq!(PanelLoc::from_str("1AB"), Err(PanelLocParseError::Illformed));
    assert_eq!(PanelLoc::from_str("+1A"), Err(PanelLocParseError::Illformed));
    assert_eq!(PanelLoc::from_str("0A"), Err(PanelLocParseError::CouldntParseWidth));
    assert_eq!(
        PanelLoc::from_str("99999999999999999999999999A"),
        Err(PanelLocParseError::CouldntParseWidth)
    );
    assert_eq!(PanelLoc::from_str("007Z"), Ok(PanelLoc { x: 6, y: 25 }));
}

#[test]
fn rotation_turns_offsets() {
    assert_eq!(Rotation::D0.rotate((2, -3)), (2, -3));
    assert_eq!(Rotation::D90.rotate((2, -3)), (3, 2));
    assert_eq!(Rotation::D180.rotate((2, -3)), (-2, 3));
    assert_eq!(Rotation::D270.rotate((2, -3)), (-3, -2));
    assert_eq!(Rotation::D90.rotate_wide(-128, 127), (-127, -128));
    for rot in Rotation::all() {
        assert_eq!(rot.inverse().rotate(rot.rotate((5, 7))), (5, 7));
    }
    let mut p = (4, -9);
    for _ in 0..4 {
        p = Rotation::D90.rotate(p);
    }
    assert_eq!(p, (4, -9));
}

#[test]
fn cursors_walk_in_order() {
    let mut g = Grid::new(2, 2);
    g.set_lit_at(1, 0, true);
    let mut it = g.iter();
    assert_eq!(it.next(), Some((0, 0, Panel::default())));
    assert_eq!(it.next(), Some((1, 0, Panel { filled: true, ..Panel::default() })));
    assert_eq!(it.next(), Some((0, 1, Panel::default())));
    assert_eq!(it.next(), Some((1, 1, Panel::default())));
    assert_eq!(it.next(), None);
    assert_eq!(it.next(), None);
    assert_eq!(Grid::new(0, 5).iter().next(), None);

    let g = Grid::new(3, 3);
    let n = Neighbourhood::new_around(1, 1, &g);
    let mut it = n.grid_iter();
    let mut cells = vec![];
    while let Some((x, y, _)) = it.next() {
        cells.push((x, y));
    }
    assert_eq!(cells, vec![(0, 1), (1, 0), (1, 1), (1, 2), (2, 1)]);
    assert_eq!(it.next(), None);
}

#[test]
fn overlap_counts_entries_not_offsets() {
    let a = Neighbourhood {
        offset_x: 0,
        offset_y: 0,
        contents: vec![(1, 0, Panel::default()), (1, 0, Panel::default()), (0, 0, Panel::default())],
    };
    let b = Neighbourhood { offset_x: 5, offset_y: 5, contents: vec![(1, 0, Panel::default())] };
    assert_eq!(a.rotated_overlap(&b, Rotation::D0), 2);
    assert_eq!(b.rotated_overlap(&a, Rotation::D0), 1);
    assert_eq!(a.rotated_overlap(&b, Rotation::D180), 0);
    // Shapes are sets of offsets: an offset that comes twice changes nothing.
    let c = Neighbourhood {
        offset_x: 2,
        offset_y: 2,
        contents: vec![(0, 0, Panel::default()), (1, 0, Panel::default())],
    };
    assert!(a.same_shape(&c));
    assert!(c.same_shape(&a));
}

#[test]
fn constrain_keeps_fixed_cells() {
    let mut g = Grid::new(3, 3);
    g.set_fixed_at(1, 2, true);
    let mut n = Neighbourhood::new_around(1, 1, &g);
    n.constrain_to_before(0, 0);
    assert_eq!(offsets(&n), vec![(0, 1)]);
    assert_eq!((n.offset_x, n.offset_y), (1, 1));
}
