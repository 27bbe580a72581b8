//! The four turns by multiples of a right angle, acting on offsets.

use vstd::prelude::*;

verus! {

/// A turn by a multiple of ninety degrees.
#[derive(Clone, Copy, PartialEq, Eq, PartialOrd, Ord, Debug, Hash, Structural)]
pub enum Rotation {
    D0,
    D90,
    D180,
    D270,
}

impl Rotation {
    /// Where the turn takes the offset `(x, y)`.
    pub open spec fn apply(self, x: int, y: int) -> (int, int) {
        match self {
            Rotation::D0 => (x, y),
            Rotation::D90 => (-y, x),
            Rotation::D180 => (-x, -y),
            Rotation::D270 => (y, -x),
        }
    }

    /// The turn that undoes this one.
    pub open spec fn inverse_spec(self) -> Rotation {
        match self {
            Rotation::D0 => Rotation::D0,
            Rotation::D90 => Rotation::D270,
            Rotation::D180 => Rotation::D180,
            Rotation::D270 => Rotation::D90,
        }
    }

    /// The four turns, in rising order.
    pub fn all() -> (r: [Rotation; 4])
        ensures
            r@ == seq![Rotation::D0, Rotation::D90, Rotation::D180, Rotation::D270],
    {
        let r = [Rotation::D0, Rotation::D90, Rotation::D180, Rotation::D270];
        assert(r@ =~= seq![Rotation::D0, Rotation::D90, Rotation::D180, Rotation::D270]);
        r
    }

    /// Turns an offset. The most negative `i8` has no negation and is left out.
    pub fn rotate(self, p: (i8, i8)) -> (r: (i8, i8))
        requires
            p.0 > i8::MIN,
            p.1 > i8::MIN,
        ensures
            (r.0 as int, r.1 as int) == self.apply(p.0 as int, p.1 as int),
    {
        match self {
            Rotation::D0 => (p.0, p.1),
            Rotation::D270 => (p.1, -p.0),
            Rotation::D180 => (-p.0, -p.1),
            Rotation::D90 => (-p.1, p.0),
        }
    }

    /// Turns an offset held in a wider integer, so that every `i8` offset can be turned.
    pub fn rotate_wide(self, x: i16, y: i16) -> (r: (i16, i16))
        requires
            x > i16::MIN,
            y > i16::MIN,
        ensures
            (r.0 as int, r.1 as int) == self.apply(x as int, y as int),
    {
        match self {
            Rotation::D0 => (x, y),
            Rotation::D270 => (y, -x),
            Rotation::D180 => (-x, -y),
            Rotation::D90 => (-y, x),
        }
    }

    /// The turn that undoes this one.
    pub fn inverse(self) -> (r: Rotation)
        ensures
            r == self.inverse_spec(),
    {
        match self {
            Rotation::D0 => Rotation::D0,
            Rotation::D90 => Rotation::D270,
            Rotation::D180 => Rotation::D180,
            Rotation::D270 => Rotation::D90,
        }
    }

    /// A turn followed by its inverse, in either order, leaves every offset in place.
    pub proof fn lemma_inverse(self, x: int, y: int)
        ensures
            self.inverse_spec().apply(self.apply(x, y).0, self.apply(x, y).1) == (x, y),
            self.apply(self.inverse_spec().apply(x, y).0, self.inverse_spec().apply(x, y).1) == (
                x,
                y,
            ),
    {
    }

    /// Four quarter turns leave every offset in place.
    pub proof fn lemma_four_quarter_turns(x: int, y: int)
        ensures
            ({
                let a = Rotation::D90.apply(x, y);
                let b = Rotation::D90.apply(a.0, a.1);
                let c = Rotation::D90.apply(b.0, b.1);
                Rotation::D90.apply(c.0, c.1) == (x, y)
            }),
    {
    }
}

} // verus!
