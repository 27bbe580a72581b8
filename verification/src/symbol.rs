//! Colours and the constraint glyphs a cell can carry.

use vstd::prelude::*;

verus! {

/// The six glyph colours.
#[derive(Clone, Copy, Debug, PartialEq, Eq, Structural)]
pub enum Color {
    Black,
    Yellow,
    Purple,
    White,
    Blue,
    Green,
}

impl Default for Color {
    fn default() -> (c: Color)
        ensures
            c == Color::Black,
    {
        Color::Black
    }
}

impl Color {
    /// The colours in their cyclic order, starting at `Black`.
    pub open spec fn cycle() -> Seq<Color> {
        seq![Color::Black, Color::Yellow, Color::Purple, Color::White, Color::Blue, Color::Green]
    }

    /// Position of the colour in [`Color::cycle`].
    pub open spec fn index(self) -> int {
        match self {
            Color::Black => 0,
            Color::Yellow => 1,
            Color::Purple => 2,
            Color::White => 3,
            Color::Blue => 4,
            Color::Green => 5,
        }
    }

    /// The colour that a marker drawn on this colour uses to stay visible.
    pub open spec fn complement_spec(self) -> Color {
        match self {
            Color::Black => Color::White,
            Color::Yellow => Color::Purple,
            Color::Purple => Color::Yellow,
            Color::White => Color::Black,
            Color::Blue => Color::Purple,
            Color::Green => Color::White,
        }
    }

    /// The upper-case letter that stands for the colour in the text format.
    pub open spec fn code_spec(self) -> char {
        match self {
            Color::Black => 'B',
            Color::Yellow => 'Y',
            Color::Purple => 'P',
            Color::White => 'W',
            Color::Blue => 'U',
            Color::Green => 'G',
        }
    }

    /// The colour a letter stands for, in either case; `None` for any other character.
    pub open spec fn from_code_spec(ch: char) -> Option<Color> {
        if ch == 'b' || ch == 'B' {
            Some(Color::Black)
        } else if ch == 'y' || ch == 'Y' {
            Some(Color::Yellow)
        } else if ch == 'p' || ch == 'P' {
            Some(Color::Purple)
        } else if ch == 'w' || ch == 'W' {
            Some(Color::White)
        } else if ch == 'u' || ch == 'U' {
            Some(Color::Blue)
        } else if ch == 'g' || ch == 'G' {
            Some(Color::Green)
        } else {
            None
        }
    }

    /// All six colours, in cyclic order.
    pub fn all() -> (v: Vec<Color>)
        ensures
            v@ == Color::cycle(),
    {
        let v = vec![
            Color::Black,
            Color::Yellow,
            Color::Purple,
            Color::White,
            Color::Blue,
            Color::Green,
        ];
        assert(v@ =~= Color::cycle());
        v
    }

    /// The colour that a marker drawn on this colour uses to stay visible.
    pub fn complement(self) -> (c: Color)
        ensures
            c == self.complement_spec(),
    {
        match self {
            Color::Black => Color::White,
            Color::Yellow => Color::Purple,
            Color::Purple => Color::Yellow,
            Color::White => Color::Black,
            Color::Blue => Color::Purple,
            Color::Green => Color::White,
        }
    }

    /// The upper-case letter that stands for the colour in the text format.
    pub fn code(self) -> (ch: char)
        ensures
            ch == self.code_spec(),
    {
        match self {
            Color::Black => 'B',
            Color::Yellow => 'Y',
            Color::Purple => 'P',
            Color::White => 'W',
            Color::Blue => 'U',
            Color::Green => 'G',
        }
    }

    /// The colour a letter stands for, in either case.
    pub fn from_code(ch: char) -> (c: Option<Color>)
        ensures
            c == Color::from_code_spec(ch),
    {
        if ch == 'b' || ch == 'B' {
            Some(Color::Black)
        } else if ch == 'y' || ch == 'Y' {
            Some(Color::Yellow)
        } else if ch == 'p' || ch == 'P' {
            Some(Color::Purple)
        } else if ch == 'w' || ch == 'W' {
            Some(Color::White)
        } else if ch == 'u' || ch == 'U' {
            Some(Color::Blue)
        } else if ch == 'g' || ch == 'G' {
            Some(Color::Green)
        } else {
            None
        }
    }

    /// The cyclic successor.
    pub fn next(self) -> (c: Color)
        ensures
            c == Color::cycle()[(self.index() + 1) % 6],
    {
        match self {
            Color::Black => Color::Yellow,
            Color::Yellow => Color::Purple,
            Color::Purple => Color::White,
            Color::White => Color::Blue,
            Color::Blue => Color::Green,
            Color::Green => Color::Black,
        }
    }

    /// The cyclic predecessor.
    pub fn prev(self) -> (c: Color)
        ensures
            c == Color::cycle()[(self.index() + 5) % 6],
    {
        match self {
            Color::Black => Color::Green,
            Color::Yellow => Color::Black,
            Color::Purple => Color::Yellow,
            Color::White => Color::Purple,
            Color::Blue => Color::White,
            Color::Green => Color::Blue,
        }
    }

    /// Every colour is found again from its own code letter.
    pub proof fn lemma_code_round_trip(self)
        ensures
            Color::from_code_spec(self.code_spec()) == Some(self),
    {
    }

    /// Stepping forward and then back, or back and then forward, returns to the start.
    pub proof fn lemma_next_prev(self)
        ensures
            Color::cycle()[(Color::cycle()[(self.index() + 1) % 6].index() + 5) % 6] == self,
            Color::cycle()[(Color::cycle()[(self.index() + 5) % 6].index() + 1) % 6] == self,
    {
    }
}

/// The constraint glyph of a cell.
#[derive(Clone, Copy, Debug, PartialEq, Eq, Structural)]
#[allow(inconsistent_fields)]
pub enum Symbol {
    /// No constraint.
    Plain,
    /// The region holds as many cells as its pips add up to.
    Pips { count: i8, color: Color },
    /// Regions of lines of one colour have the same shape.
    Line { diagonal: bool, color: Color },
    /// The region holds exactly two glyphs of this colour.
    Lozange { color: Color },
    /// `count` of the four adjacent cells are lit as this one is.
    Petals { count: usize },
}

impl Default for Symbol {
    fn default() -> (s: Symbol)
        ensures
            s == Symbol::Plain,
    {
        Symbol::Plain
    }
}

impl Symbol {
    /// Whether the glyph's parameters are in range: a petal count is at most four.
    pub open spec fn valid(self) -> bool {
        self matches Symbol::Petals { count } ==> count <= 4
    }

    /// The colour of a coloured glyph.
    pub open spec fn colour_spec(self) -> Option<Color> {
        match self {
            Symbol::Plain => None,
            Symbol::Petals { .. } => None,
            Symbol::Pips { color, .. } => Some(color),
            Symbol::Line { color, .. } => Some(color),
            Symbol::Lozange { color } => Some(color),
        }
    }

    /// The glyph after its count is set to `c`: pips take `c` as it is, petals take it
    /// clamped to `0..=4`, the other glyphs have no count.
    pub open spec fn with_count(self, c: i8) -> Symbol {
        match self {
            Symbol::Pips { count, color } => Symbol::Pips { count: c, color },
            Symbol::Petals { count } => Symbol::Petals {
                count: if c < 0 {
                    0usize
                } else if c > 4 {
                    4usize
                } else {
                    c as usize
                },
            },
            _ => self,
        }
    }

    /// The glyph after one step up: pips skip zero, petals stop at four.
    pub open spec fn incremented(self) -> Symbol {
        match self {
            Symbol::Pips { count, color } => Symbol::Pips {
                count: if count == -1 {
                    1i8
                } else {
                    (count + 1) as i8
                },
                color,
            },
            Symbol::Petals { count } => Symbol::Petals {
                count: if count >= 4 {
                    4usize
                } else {
                    (count + 1) as usize
                },
            },
            _ => self,
        }
    }

    /// The glyph after one step down: pips skip zero, petals stop at zero.
    pub open spec fn decremented(self) -> Symbol {
        match self {
            Symbol::Pips { count, color } => Symbol::Pips {
                count: if count == 1 {
                    -1i8
                } else {
                    (count - 1) as i8
                },
                color,
            },
            Symbol::Petals { count } => Symbol::Petals {
                count: if count == 0 {
                    0usize
                } else {
                    (count - 1) as usize
                },
            },
            _ => self,
        }
    }

    /// The colour of a coloured glyph.
    pub fn colour(&self) -> (c: Option<Color>)
        ensures
            c == self.colour_spec(),
    {
        match *self {
            Symbol::Plain => None,
            Symbol::Petals { .. } => None,
            Symbol::Pips { color, .. } => Some(color),
            Symbol::Line { color, .. } => Some(color),
            Symbol::Lozange { color } => Some(color),
        }
    }

    /// Sets the count of pips, or of petals within `0..=4`; other glyphs stay.
    pub fn set_count(&mut self, c: i8)
        ensures
            *final(self) == old(self).with_count(c),
    {
        let next = match *self {
            Symbol::Pips { count: _, color } => Symbol::Pips { count: c, color },
            Symbol::Petals { count: _ } => Symbol::Petals {
                count: if c < 0 {
                    0usize
                } else if c > 4 {
                    4usize
                } else {
                    c as usize
                },
            },
            other => other,
        };
        *self = next;
    }

    /// Steps the count up: pips skip zero, petals stop at four. Pips at the greatest
    /// count cannot step up.
    pub fn incr_count(&mut self)
        requires
            *old(self) matches Symbol::Pips { count, .. } ==> count < i8::MAX,
        ensures
            *final(self) == old(self).incremented(),
    {
        let next = match *self {
            Symbol::Pips { count, color } => Symbol::Pips {
                count: if count == -1 {
                    1i8
                } else {
                    count + 1
                },
                color,
            },
            Symbol::Petals { count } => Symbol::Petals {
                count: if count >= 4 {
                    4usize
                } else {
                    count + 1
                },
            },
            other => other,
        };
        *self = next;
    }

    /// Steps the count down: pips skip zero, petals stop at zero. Pips at the least
    /// count cannot step down.
    pub fn decr_count(&mut self)
        requires
            *old(self) matches Symbol::Pips { count, .. } ==> count > i8::MIN,
        ensures
            *final(self) == old(self).decremented(),
    {
        let next = match *self {
            Symbol::Pips { count, color } => Symbol::Pips {
                count: if count == 1 {
                    -1i8
                } else {
                    count - 1
                },
                color,
            },
            Symbol::Petals { count } => Symbol::Petals {
                count: if count == 0 {
                    0usize
                } else {
                    count - 1
                },
            },
            other => other,
        };
        *self = next;
    }
}

} // verus!
