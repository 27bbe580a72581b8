use taiji::symbol::{Color, Symbol};

#[test]
fn colour_codes() {
    let codes: Vec<char> = Color::all().into_iter().map(|c| c.code()).collect();
    assert_eq!(codes, vec!['B', 'Y', 'P', 'W', 'U', 'G']);
    for color in Color::all() {
        assert_eq!(Color::from_code(color.code()), Some(color));
        assert_eq!(Color::from_code(color.code().to_ascii_lowercase()), Some(color));
    }
    assert_eq!(Color::from_code('x'), None);
    assert_eq!(Color::default(), Color::Black);
}

#[test]
fn colour_cycle_and_complement() {
    assert_eq!(Color::Black.next(), Color::Yellow);
    assert_eq!(Color::Green.next(), Color::Black);
    assert_eq!(Color::Black.prev(), Color::Green);
    assert_eq!(Color::White.prev(), Color::Purple);
    for color in Color::all() {
        assert_eq!(color.next().prev(), color);
        assert_eq!(color.prev().next(), color);
    }
    assert_eq!(Color::Black.complement(), Color::White);
    assert_eq!(Color::Yellow.complement(), Color::Purple);
    assert_eq!(Color::Purple.complement(), Color::Yellow);
    assert_eq!(Color::White.complement(), Color::Black);
    assert_eq!(Color::Blue.complement(), Color::Purple);
    assert_eq!(Color::Green.complement(), Color::White);
}

#[test]
fn symbol_colour() {
    assert_eq!(Symbol::Plain.colour(), None);
    assert_eq!(Symbol::Petals { count: 2 }.colour(), None);
    assert_eq!(Symbol::Pips { count: 1, color: Color::Blue }.colour(), Some(Color::Blue));
    assert_eq!(Symbol::Line { diagonal: true, color: Color::Green }.colour(), Some(Color::Green));
    assert_eq!(Symbol::Lozange { color: Color::White }.colour(), Some(Color::White));
    assert_eq!(Symbol::default(), Symbol::Plain);
}

#[test]
fn symbol_counts() {
    let mut s = Symbol::Pips { count: 3, color: Color::Blue };
    s.set_count(-7);
    assert_eq!(s, Symbol::Pips { count: -7, color: Color::Blue });
    let mut s = Symbol::Petals { count: 1 };
    s.set_count(9);
    assert_eq!(s, Symbol::Petals { count: 4 });
    s.set_count(-2);
    assert_eq!(s, Symbol::Petals { count: 0 });
    s.set_count(3);
    assert_eq!(s, Symbol::Petals { count: 3 });
    let mut s = Symbol::Line { diagonal: false, color: Color::Black };
    s.set_count(3);
    s.incr_count();
    s.decr_count();
    assert_eq!(s, Symbol::Line { diagonal: false, color: Color::Black });

    // Pips step over zero.
    let mut s = Symbol::Pips { count: -1, color: Color::Blue };
    s.incr_count();
    assert_eq!(s, Symbol::Pips { count: 1, color: Color::Blue });
    s.incr_count();
    assert_eq!(s, Symbol::Pips { count: 2, color: Color::Blue });
    let mut s = Symbol::Pips { count: 1, color: Color::Blue };
    s.decr_count();
    assert_eq!(s, Symbol::Pips { count: -1, color: Color::Blue });
    s.decr_count();
    assert_eq!(s, Symbol::Pips { count: -2, color: Color::Blue });

    // Petals stay between none and four.
    let mut s = Symbol::Petals { count: 3 };
    s.incr_count();
    assert_eq!(s, Symbol::Petals { count: 4 });
    s.incr_count();
    assert_eq!(s, Symbol::Petals { count: 4 });
    let mut s = Symbol::Petals { count: 1 };
    s.decr_count();
    assert_eq!(s, Symbol::Petals { count: 0 });
    s.decr_count();
    assert_eq!(s, Symbol::Petals { count: 0 });
}
