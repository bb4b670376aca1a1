use vstd::prelude::*;

verus! {

/// A cell of the grid. `x` grows to the right, `y` grows downwards.
#[derive(Clone, Copy, Debug, PartialEq, Eq, Hash, Structural)]
pub struct XY {
    pub x: i32,
    pub y: i32,
}

/// The coordinates of a cell as mathematical integers.
pub open spec fn pt(p: XY) -> (int, int) {
    (p.x as int, p.y as int)
}

/// Whether an integer point can be held by an `XY`.
pub open spec fn in_range(p: (int, int)) -> bool {
    i32::MIN <= p.0 <= i32::MAX && i32::MIN <= p.1 <= i32::MAX
}

/// The `XY` holding an integer point that is in range.
pub open spec fn to_xy(p: (int, int)) -> XY {
    XY { x: p.0 as i32, y: p.1 as i32 }
}

impl XY {
    pub fn zero() -> (r: XY)
        ensures
            r == (XY { x: 0, y: 0 }),
    {
        XY { x: 0, y: 0 }
    }

    pub fn one() -> (r: XY)
        ensures
            r == (XY { x: 1, y: 1 }),
    {
        XY { x: 1, y: 1 }
    }

    pub fn add(self, rhs: XY) -> (r: XY)
        requires
            in_range((self.x + rhs.x, self.y + rhs.y)),
        ensures
            pt(r) == (self.x + rhs.x, self.y + rhs.y),
    {
        XY { x: self.x + rhs.x, y: self.y + rhs.y }
    }

    pub fn sub(self, rhs: XY) -> (r: XY)
        requires
            in_range((self.x - rhs.x, self.y - rhs.y)),
        ensures
            pt(r) == (self.x - rhs.x, self.y - rhs.y),
    {
        XY { x: self.x - rhs.x, y: self.y - rhs.y }
    }

    pub fn mul(self, rhs: i32) -> (r: XY)
        requires
            in_range((rhs * self.x, rhs * self.y)),
        ensures
            pt(r) == (rhs * self.x, rhs * self.y),
    {
        XY { x: rhs * self.x, y: rhs * self.y }
    }
}

impl From<(i32, i32)> for XY {
    fn from(value: (i32, i32)) -> (r: XY) {
        XY { x: value.0, y: value.1 }
    }
}

impl vstd::std_specs::convert::FromSpecImpl<(i32, i32)> for XY {
    open spec fn obeys_from_spec() -> bool {
        true
    }

    open spec fn from_spec(v: (i32, i32)) -> XY {
        XY { x: v.0, y: v.1 }
    }
}

/// The direction in which a word is written.
#[derive(Clone, Copy, Debug, PartialEq, Eq, Structural)]
pub enum Orientation {
    /// Left-to-right
    Horiz,
    /// Top-to-bottom
    Vert,
}

/// The unit step along an orientation.
pub open spec fn step_of(o: Orientation) -> (int, int) {
    match o {
        Orientation::Horiz => (1, 0),
        Orientation::Vert => (0, 1),
    }
}

/// The unit step across an orientation (the first of the two neighbours
/// beside a letter; the second is its opposite).
pub open spec fn across_of(o: Orientation) -> (int, int) {
    match o {
        Orientation::Horiz => (0, 1),
        Orientation::Vert => (1, 0),
    }
}

/// The cell holding the letter at offset `i` of a word that starts at `pos`.
pub open spec fn cell_at(pos: XY, o: Orientation, i: int) -> (int, int) {
    (pos.x + i * step_of(o).0, pos.y + i * step_of(o).1)
}

/// Every letter of a word of length `n` starting at `pos` lands on a
/// cell that an `XY` can hold.
pub open spec fn word_fits(pos: XY, o: Orientation, n: int) -> bool {
    n == 0 || in_range(cell_at(pos, o, n - 1))
}

pub proof fn lemma_cell_at(pos: XY, o: Orientation, i: int)
    ensures
        o == Orientation::Horiz ==> cell_at(pos, o, i) == (pos.x + i, pos.y as int),
        o == Orientation::Vert ==> cell_at(pos, o, i) == (pos.x as int, pos.y + i),
{
}

impl Orientation {
    pub fn step(&self) -> (r: XY)
        ensures
            pt(r) == step_of(*self),
    {
        match self {
            Orientation::Horiz => XY { x: 1, y: 0 },
            Orientation::Vert => XY { x: 0, y: 1 },
        }
    }

    pub fn band(&self) -> (r: [XY; 2])
        ensures
            pt(r[0]) == across_of(*self),
            pt(r[1]) == (-across_of(*self).0, -across_of(*self).1),
    {
        let s = match self {
            Orientation::Horiz => XY { x: 0, y: 1 },
            Orientation::Vert => XY { x: 1, y: 0 },
        };
        [s, XY::zero().sub(s)]
    }

    /// A short tag naming the orientation.
    pub fn name(&self) -> (r: &'static str)
        ensures
            *self == Orientation::Horiz ==> r@ == "Hor"@,
            *self == Orientation::Vert ==> r@ == "Ver"@,
    {
        proof {
            reveal_strlit("Hor");
            reveal_strlit("Ver");
        }
        match self {
            Orientation::Horiz => "Hor",
            Orientation::Vert => "Ver",
        }
    }
}

} // verus!
