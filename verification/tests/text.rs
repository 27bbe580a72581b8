use taiji::grid::{Grid, Gridlike};
use taiji::grid_text::{from_str_gridlike, GridParseError};
use taiji::panel::{Panel, PanelLoc};
use taiji::panel_text::PanelParseError;
use taiji::symbol::{Color, Symbol};

#[test]
fn parse1() {
    for filled in [false, true] {
        for fixed in [false, true] {
            let panel = Panel {
                filled,
                fixed,
                symbol: Symbol::Plain,
            };
            assert_eq!(panel, Panel::from_str(&panel.to_string()).unwrap());

            for color in Color::all() {
                let panel = Panel {
                    filled,
                    fixed,
                    symbol: Symbol::Lozange { color },
                };
                assert_eq!(panel, Panel::from_str(&panel.to_string()).unwrap());
            }

            for count in 0..4 {
                let panel = Panel {
                    filled,
                    fixed,
                    symbol: Symbol::Petals { count },
                };
                assert_eq!(panel, Panel::from_str(&panel.to_string()).unwrap());
            }

            for diagonal in [false, true] {
                for color in Color::all() {
                    let panel = Panel {
                        filled,
                        fixed,
                        symbol: Symbol::Line { diagonal, color },
                    };
                    assert_eq!(panel, Panel::from_str(&panel.to_string()).unwrap());
                }
            }

            for color in Color::all() {
                for count in -5..0 {
                    let panel = Panel {
                        filled,
                        fixed,
                        symbol: Symbol::Pips { count, color },
                    };
                    assert_eq!(panel, Panel::from_str(&panel.to_string()).unwrap());
                }
                for count in 1..10 {
                    let panel = Panel {
                        filled,
                        fixed,
                        symbol: Symbol::Pips { count, color },
                    };
                    assert_eq!(panel, Panel::from_str(&panel.to_string()).unwrap());
                }
            }
        }
    }
}

#[test]
fn panel_text_is_exact() {
    let p = Panel { filled: true, fixed: true, symbol: Symbol::Pips { count: -12, color: Color::Blue } };
    assert_eq!(p.to_string(), "X!CU-12");
    let p = Panel { filled: false, fixed: false, symbol: Symbol::Line { diagonal: true, color: Color::Green } };
    assert_eq!(p.to_string(), "./G");
    let p = Panel { filled: false, fixed: true, symbol: Symbol::Petals { count: 3 } };
    assert_eq!(p.to_string(), ".!F3");
    let p = Panel { filled: true, fixed: false, symbol: Symbol::Lozange { color: Color::White } };
    assert_eq!(p.to_string(), "XOW");
    assert_eq!(Panel::default().to_string(), ".");
}

#[test]
fn panel_round_trip_at_the_limits() {
    for count in [i8::MIN, -1, 0, 1, i8::MAX] {
        let p = Panel { filled: true, fixed: false, symbol: Symbol::Pips { count, color: Color::Yellow } };
        assert_eq!(Ok(p), Panel::from_str(&p.to_string()));
    }
    let p = Panel { filled: false, fixed: true, symbol: Symbol::Petals { count: 4 } };
    assert_eq!(Ok(p), Panel::from_str(&p.to_string()));
}

#[test]
fn panel_reads_either_case() {
    assert_eq!(
        Panel::from_str("x!cu+3"),
        Ok(Panel { filled: true, fixed: true, symbol: Symbol::Pips { count: 3, color: Color::Blue } })
    );
    assert_eq!(
        Panel::from_str(".ob"),
        Ok(Panel { filled: false, fixed: false, symbol: Symbol::Lozange { color: Color::Black } })
    );
    assert_eq!(
        Panel::from_str("Xf0"),
        Ok(Panel { filled: true, fixed: false, symbol: Symbol::Petals { count: 0 } })
    );
}

#[test]
fn panel_parse_errors() {
    assert_eq!(Panel::from_str(""), Err(PanelParseError::EmptyPanel));
    assert_eq!(Panel::from_str("q"), Err(PanelParseError::InvalidCharacter('q')));
    assert_eq!(Panel::from_str(".q"), Err(PanelParseError::InvalidCharacter('q')));
    assert_eq!(Panel::from_str(".-"), Err(PanelParseError::InvalidCharacter('-')));
    assert_eq!(Panel::from_str(".C"), Err(PanelParseError::InvalidCharacter('C')));
    assert_eq!(Panel::from_str(".-Z"), Err(PanelParseError::InvalidColor('Z')));
    assert_eq!(Panel::from_str("XOq"), Err(PanelParseError::InvalidColor('q')));
    assert_eq!(Panel::from_str("XCB"), Err(PanelParseError::InvalidCountStr));
    assert_eq!(Panel::from_str("XCB128"), Err(PanelParseError::InvalidCountStr));
    assert_eq!(Panel::from_str("XCB-129"), Err(PanelParseError::InvalidCountStr));
    assert_eq!(Panel::from_str("XCB1x"), Err(PanelParseError::InvalidCountStr));
    assert_eq!(Panel::from_str("XF"), Err(PanelParseError::InvalidCountStr));
    assert_eq!(Panel::from_str("XF-1"), Err(PanelParseError::InvalidCountStr));
    assert_eq!(Panel::from_str(".F5"), Err(PanelParseError::TooManyPetals(5)));
    assert_eq!(Panel::from_str(".-Bxy"), Err(PanelParseError::TrailingBytes(vec![b'x', b'y'])));
    assert_eq!(Panel::from_str(".OB!"), Err(PanelParseError::TrailingBytes(vec![b'!'])));
}

#[test]
fn malformed_grids_are_rejected() {
    assert_eq!(Grid::from_str("").err(), Some(GridParseError::EmptyInput));
    assert_eq!(Grid::from_str("3 3").err(), Some(GridParseError::EmptyInput));
    assert_eq!(Grid::from_str("\n. .").err(), Some(GridParseError::MissingWidth));
    assert_eq!(Grid::from_str("3\n...").err(), Some(GridParseError::MissingHeight));
    assert_eq!(Grid::from_str("a 3\n").err(), Some(GridParseError::InvalidWidth));
    assert_eq!(Grid::from_str("17 3\n").err(), Some(GridParseError::InvalidWidth));
    assert_eq!(Grid::from_str("3 b\n").err(), Some(GridParseError::InvalidHeight));
    assert_eq!(Grid::from_str("3 13\n").err(), Some(GridParseError::InvalidHeight));
    assert_eq!(Grid::from_str("2 2\n. . .\n").err(), Some(GridParseError::PrematureEndOfInput));
    assert_eq!(
        Grid::from_str("2 2\n. X .F5 .\n").err(),
        Some(GridParseError::InvalidPanel { x: 0, y: 1, e: PanelParseError::TooManyPetals(5) })
    );
}

#[test]
fn grid_text_is_exact() {
    let mut g = Grid::new(2, 2);
    g.set_lit_at(1, 0, true);
    g.set_fixed_at(0, 1, true);
    g.set_symbol_at(1, 1, Symbol::Pips { count: 2, color: Color::Purple });
    assert_eq!(g.to_string(), "2 2\n. X \n.! .CP2 \n");
    assert_eq!(Grid::new(0, 3).to_string(), "0 3\n\n");
}

#[test]
fn grid_round_trip() {
    let mut g = Grid::new(4, 3);
    g.set_lit_at(0, 0, true);
    g.set_lit_at(3, 2, true);
    g.set_fixed_at(3, 2, true);
    g.set_fixed_at(1, 1, true);
    g.set_symbol_at(0, 0, Symbol::Petals { count: 2 });
    g.set_symbol_at(2, 1, Symbol::Line { diagonal: false, color: Color::Black });
    g.set_symbol_at(3, 2, Symbol::Lozange { color: Color::Yellow });
    g.set_symbol_at(1, 2, Symbol::Pips { count: -3, color: Color::Green });
    let text = g.to_string();
    let back = Grid::from_str(&text).unwrap();
    assert_eq!(back.width(), 4);
    assert_eq!(back.height(), 3);
    for y in 0..3 {
        for x in 0..4 {
            assert_eq!(back.panel_at(x, y), g.panel_at(x, y));
        }
    }
    assert_eq!(back.to_string(), text);
}

#[test]
fn grid_reads_words_over_lines() {
    let g = Grid::from_str("  2\t2 \n.\n\n x!   .OB\r\n X/u  trailing words").unwrap();
    assert_eq!(g.panel_at(0, 0), Panel::default());
    assert_eq!(g.panel_at(1, 0), Panel { filled: true, fixed: true, symbol: Symbol::Plain });
    assert_eq!(g.symbol_at(0, 1), Some(Symbol::Lozange { color: Color::Black }));
    assert_eq!(
        g.panel_at(1, 1),
        Panel { filled: true, fixed: false, symbol: Symbol::Line { diagonal: true, color: Color::Blue } }
    );
}

#[test]
fn panel_loc_text() {
    assert_eq!(PanelLoc { x: 1, y: 4 }.to_string(), "2E");
    assert_eq!(PanelLoc { x: 0, y: 0 }.to_string(), "1A");
    assert_eq!(PanelLoc { x: 11, y: 25 }.to_string(), "12Z");
    assert_eq!(PanelLoc::from_str("12Z"), Ok(PanelLoc { x: 11, y: 25 }));
    assert_eq!(PanelLoc::from_str("2E"), Ok(PanelLoc { x: 1, y: 4 }));
}

fn lit_cells<G: Gridlike>(grid: &G) -> usize {
    let mut n = 0;
    for y in 0..grid.height() {
        for x in 0..grid.width() {
            if grid.lit_at(x, y) {
                n += 1;
            }
        }
    }
    n
}

#[test]
fn any_gridlike_is_read_from_text() {
    let g: Grid = from_str_gridlike("3 2\nX . x!\n. X/B .\n").unwrap();
    assert_eq!((g.width(), g.height()), (3, 2));
    assert_eq!(lit_cells(&g), 3);
    assert_eq!(g.symbols(), vec![(1, 1, Symbol::Line { diagonal: true, color: Color::Black })]);
}
