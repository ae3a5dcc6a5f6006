use vstd::prelude::*;

verus! {

/// A two-component vector over one scalar type. Its two instantiations are
/// `UCoord2` (unsigned cell coordinates) and `UDelta2` (signed displacements).
#[derive(Debug, Clone, Copy, PartialEq, Eq, Structural, Hash)]
pub struct Vect2<T> {
    pub x: T,
    pub y: T,
}

/// A cell coordinate on the grid: `x` is the column, `y` the row.
pub type UCoord2 = Vect2<usize>;

/// A signed displacement between two cell coordinates.
pub type UDelta2 = Vect2<i32>;

impl<T> Vect2<T> {
    pub fn new(x: T, y: T) -> (r: Self)
        ensures
            r.x == x,
            r.y == y,
    {
        Vect2 { x, y }
    }
}

impl Vect2<usize> {
    /// True exactly when this coordinate is `(x, y)`.
    pub fn is(&self, x: usize, y: usize) -> (r: bool)
        ensures
            r == (self.x == x && self.y == y),
    {
        self.x == x && self.y == y
    }

    /// Moves this coordinate by a signed displacement. Underflow and overflow
    /// are ruled out by precondition: a move off the grid is a caller error,
    /// never wraparound.
    pub fn add(self, rhs: UDelta2) -> (r: UCoord2)
        requires
            0 <= self.x + rhs.x <= usize::MAX,
            0 <= self.y + rhs.y <= usize::MAX,
        ensures
            r.x == self.x + rhs.x,
            r.y == self.y + rhs.y,
    {
        let x: usize = if rhs.x >= 0 {
            self.x + (rhs.x as usize)
        } else {
            self.x - ((-(rhs.x as i64)) as usize)
        };
        let y: usize = if rhs.y >= 0 {
            self.y + (rhs.y as usize)
        } else {
            self.y - ((-(rhs.y as i64)) as usize)
        };
        Vect2 { x, y }
    }

    /// The displacement that carries `rhs` to `self`.
    pub fn sub(self, rhs: UCoord2) -> (r: UDelta2)
        requires
            self.x <= i32::MAX,
            self.y <= i32::MAX,
            rhs.x <= i32::MAX,
            rhs.y <= i32::MAX,
        ensures
            r.x == self.x - rhs.x,
            r.y == self.y - rhs.y,
    {
        Vect2 { x: self.x as i32 - rhs.x as i32, y: self.y as i32 - rhs.y as i32 }
    }
}

impl Vect2<i32> {
    /// Componentwise difference of two displacements.
    pub fn sub(self, rhs: Self) -> (r: Self)
        requires
            i32::MIN <= self.x - rhs.x <= i32::MAX,
            i32::MIN <= self.y - rhs.y <= i32::MAX,
        ensures
            r.x == self.x - rhs.x,
            r.y == self.y - rhs.y,
    {
        Vect2 { x: self.x - rhs.x, y: self.y - rhs.y }
    }

    /// Squared Euclidean length of the displacement.
    pub fn length2(&self) -> (r: i32)
        requires
            self.x * self.x + self.y * self.y <= i32::MAX,
        ensures
            r == self.x * self.x + self.y * self.y,
    {
        proof {
            assert(self.x * self.x >= 0 && self.y * self.y >= 0) by (nonlinear_arith);
        }
        self.x * self.x + self.y * self.y
    }

    /// The `x` component as an unsigned value; negative components are a
    /// caller error.
    pub fn x_usize(&self) -> (r: usize)
        requires
            self.x >= 0,
        ensures
            r == self.x,
    {
        self.x as usize
    }

    /// The `y` component as an unsigned value; negative components are a
    /// caller error.
    pub fn y_usize(&self) -> (r: usize)
        requires
            self.y >= 0,
        ensures
            r == self.y,
    {
        self.y as usize
    }

    /// Both components as an unsigned coordinate.
    pub fn xy_usize(&self) -> (r: UCoord2)
        requires
            self.x >= 0,
            self.y >= 0,
        ensures
            r.x == self.x,
            r.y == self.y,
    {
        Vect2 { x: self.x as usize, y: self.y as usize }
    }
}

} // verus!
