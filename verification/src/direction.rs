use vstd::prelude::*;

use crate::vect2_t::{UCoord2, UDelta2, Vect2};

verus! {

/// The four compass directions, in the fixed rotation order
/// Right -> Down -> Left -> Up -> Right used for neighbour enumeration.
#[derive(Debug, Clone, Copy, PartialEq, Eq, Structural)]
pub enum Direction {
    Right,
    Down,
    Left,
    Up,
}

impl Direction {
    /// The direction that follows this one in rotation order.
    pub open spec fn next_spec(self) -> Direction {
        match self {
            Direction::Right => Direction::Down,
            Direction::Down => Direction::Left,
            Direction::Left => Direction::Up,
            Direction::Up => Direction::Right,
        }
    }

    pub fn next(&self) -> (r: Self)
        ensures
            r == self.next_spec(),
    {
        match self {
            Direction::Right => Direction::Down,
            Direction::Down => Direction::Left,
            Direction::Left => Direction::Up,
            Direction::Up => Direction::Right,
        }
    }

    /// The direction opposite to this one.
    pub open spec fn reverse_spec(self) -> Direction {
        match self {
            Direction::Right => Direction::Left,
            Direction::Down => Direction::Up,
            Direction::Left => Direction::Right,
            Direction::Up => Direction::Down,
        }
    }

    pub fn reverse(&self) -> (r: Self)
        ensures
            r == self.reverse_spec(),
    {
        match self {
            Direction::Right => Direction::Left,
            Direction::Down => Direction::Up,
            Direction::Left => Direction::Right,
            Direction::Up => Direction::Down,
        }
    }

    /// The token emitted for this direction in the per-turn protocol.
    pub fn label(&self) -> (r: &'static str)
        ensures
            self == Direction::Right ==> r@ == "RIGHT"@,
            self == Direction::Down ==> r@ == "DOWN"@,
            self == Direction::Left ==> r@ == "LEFT"@,
            self == Direction::Up ==> r@ == "UP"@,
    {
        match self {
            Direction::Right => "RIGHT",
            Direction::Down => "DOWN",
            Direction::Left => "LEFT",
            Direction::Up => "UP",
        }
    }

    /// The unit displacement of one move in this direction.
    pub open spec fn to_delta_spec(self) -> UDelta2 {
        match self {
            Direction::Right => Vect2::<i32> { x: 1, y: 0 },
            Direction::Down => Vect2::<i32> { x: 0, y: 1 },
            Direction::Left => Vect2::<i32> { x: -1i32, y: 0 },
            Direction::Up => Vect2::<i32> { x: 0, y: -1i32 },
        }
    }

    pub fn to_delta(&self) -> (r: UDelta2)
        ensures
            r == self.to_delta_spec(),
    {
        match self {
            Direction::Right => Vect2 { x: 1, y: 0 },
            Direction::Down => Vect2 { x: 0, y: 1 },
            Direction::Left => Vect2 { x: -1, y: 0 },
            Direction::Up => Vect2 { x: 0, y: -1 },
        }
    }

    /// One step from `start` in this direction; stepping off the edge of the
    /// representable range is a caller error.
    pub fn apply_to_coord(&self, start: UCoord2) -> (r: UCoord2)
        requires
            has_neighbour(start, *self),
        ensures
            r == neighbour_spec(start, *self),
    {
        match self {
            Direction::Right => Vect2 { x: start.x + 1, y: start.y },
            Direction::Down => Vect2 { x: start.x, y: start.y + 1 },
            Direction::Left => Vect2 { x: start.x - 1, y: start.y },
            Direction::Up => Vect2 { x: start.x, y: start.y - 1 },
        }
    }
}

/// The compass direction of a displacement, by the quadrant (rotated 45
/// degrees) that it falls in. The zero displacement has no direction and
/// maps to `Right` by convention.
pub open spec fn dir_of_delta(v: UDelta2) -> Direction {
    if v.y >= -v.x && v.y < v.x {
        Direction::Right
    } else if v.x <= v.y && v.x > -v.y {
        Direction::Down
    } else if v.y <= -v.x && v.y > v.x {
        Direction::Left
    } else if v.x >= v.y && v.x < -v.y {
        Direction::Up
    } else {
        Direction::Right
    }
}

impl From<UDelta2> for Direction {
    fn from(v: UDelta2) -> (r: Self) {
        let x = v.x as i64;
        let y = v.y as i64;
        if y >= -x && y < x {
            Direction::Right
        } else if x <= y && x > -y {
            Direction::Down
        } else if y <= -x && y > x {
            Direction::Left
        } else if x >= y && x < -y {
            Direction::Up
        } else {
            Direction::Right
        }
    }
}

impl vstd::std_specs::convert::FromSpecImpl<UDelta2> for Direction {
    open spec fn obeys_from_spec() -> bool {
        true
    }

    open spec fn from_spec(v: UDelta2) -> Direction {
        dir_of_delta(v)
    }
}

/// Whether one step from `c` in direction `d` stays inside the representable
/// coordinate range.
pub open spec fn has_neighbour(c: UCoord2, d: Direction) -> bool {
    match d {
        Direction::Right => c.x < usize::MAX,
        Direction::Down => c.y < usize::MAX,
        Direction::Left => c.x > 0,
        Direction::Up => c.y > 0,
    }
}

/// The coordinate one step from `c` in direction `d`; meaningful only where
/// `has_neighbour(c, d)` holds.
pub open spec fn neighbour_spec(c: UCoord2, d: Direction) -> UCoord2 {
    match d {
        Direction::Right => Vect2::<usize> { x: (c.x + 1) as usize, y: c.y },
        Direction::Down => Vect2::<usize> { x: c.x, y: (c.y + 1) as usize },
        Direction::Left => Vect2::<usize> { x: (c.x - 1) as usize, y: c.y },
        Direction::Up => Vect2::<usize> { x: c.x, y: (c.y - 1) as usize },
    }
}

/// Two cells are adjacent when they are exactly one grid step apart.
pub open spec fn adjacent(a: UCoord2, b: UCoord2) -> bool {
    manhattan(a, b) == 1
}

/// Manhattan distance between two cells.
pub open spec fn manhattan(a: UCoord2, b: UCoord2) -> int {
    abs_int(a.x - b.x) + abs_int(a.y - b.y)
}

pub open spec fn abs_int(x: int) -> int {
    if x < 0 {
        -x
    } else {
        x
    }
}

/// The neighbours of `c` that exist in the representable range, enumerated
/// over `n` rotation steps starting from direction `d`.
pub open spec fn neighbours_from(c: UCoord2, d: Direction, n: nat) -> Seq<UCoord2>
    decreases n,
{
    if n == 0 {
        Seq::empty()
    } else {
        let rest = neighbours_from(c, d.next_spec(), (n - 1) as nat);
        if has_neighbour(c, d) {
            seq![neighbour_spec(c, d)] + rest
        } else {
            rest
        }
    }
}

/// A neighbour one rotation step away is adjacent to its origin.
pub proof fn lemma_neighbour_adjacent(c: UCoord2, d: Direction)
    requires
        has_neighbour(c, d),
    ensures
        adjacent(c, neighbour_spec(c, d)),
{
}

/// Every adjacent cell is the neighbour in one of the four directions.
pub proof fn lemma_adjacent_is_neighbour(c: UCoord2, b: UCoord2)
    requires
        adjacent(c, b),
    ensures
        exists|d: Direction| has_neighbour(c, d) && neighbour_spec(c, d) == b,
{
    if b.x == c.x + 1 && b.y == c.y {
        assert(has_neighbour(c, Direction::Right) && neighbour_spec(c, Direction::Right) == b);
    } else if b.x + 1 == c.x && b.y == c.y {
        assert(has_neighbour(c, Direction::Left) && neighbour_spec(c, Direction::Left) == b);
    } else if b.y == c.y + 1 && b.x == c.x {
        assert(has_neighbour(c, Direction::Down) && neighbour_spec(c, Direction::Down) == b);
    } else {
        assert(b.y + 1 == c.y && b.x == c.x);
        assert(has_neighbour(c, Direction::Up) && neighbour_spec(c, Direction::Up) == b);
    }
}

/// Four rotation steps from any starting direction reach every direction:
/// the neighbour in any representable direction is in the enumeration.
pub proof fn lemma_neighbours_from_complete(c: UCoord2, d0: Direction, d: Direction)
    requires
        has_neighbour(c, d),
    ensures
        neighbours_from(c, d0, 4).contains(neighbour_spec(c, d)),
{
    broadcast use vstd::seq_lib::lemma_seq_concat_contains_all_elements;

    reveal_with_fuel(neighbours_from, 5);
    let d1 = d0.next_spec();
    let d2 = d1.next_spec();
    let d3 = d2.next_spec();
    assert(d == d0 || d == d1 || d == d2 || d == d3);
    assert(seq![neighbour_spec(c, d)][0] == neighbour_spec(c, d));
    assert(seq![neighbour_spec(c, d)].contains(neighbour_spec(c, d)));
}

/// Everything the neighbour enumeration yields is adjacent to its origin.
pub proof fn lemma_neighbours_from_members(c: UCoord2, d0: Direction)
    ensures
        forall|b: UCoord2| neighbours_from(c, d0, 4).contains(b) ==> adjacent(c, b),
{
    broadcast use vstd::seq_lib::lemma_seq_concat_contains_all_elements;

    reveal_with_fuel(neighbours_from, 5);
    let d1 = d0.next_spec();
    let d2 = d1.next_spec();
    let d3 = d2.next_spec();
    assert forall|b: UCoord2| neighbours_from(c, d0, 4).contains(b) implies adjacent(c, b) by {
        assert(forall|e: UCoord2, x: UCoord2| #[trigger] seq![e].contains(x) ==> x == e);
        if b == neighbour_spec(c, d0) && has_neighbour(c, d0) {
            lemma_neighbour_adjacent(c, d0);
        } else if b == neighbour_spec(c, d1) && has_neighbour(c, d1) {
            lemma_neighbour_adjacent(c, d1);
        } else if b == neighbour_spec(c, d2) && has_neighbour(c, d2) {
            lemma_neighbour_adjacent(c, d2);
        } else {
            lemma_neighbour_adjacent(c, d3);
        }
    }
}

impl UCoord2 {
    /// The neighbouring coordinate one step in `dir`; stepping outside the
    /// representable range is a caller error.
    pub fn get_neighbour(&self, dir: &Direction) -> (r: UCoord2)
        requires
            has_neighbour(*self, *dir),
        ensures
            r == neighbour_spec(*self, *dir),
            adjacent(*self, r),
    {
        dir.apply_to_coord(*self)
    }

    /// The representable neighbours of this coordinate, in rotation order
    /// starting from `first_dir`.
    pub fn neighbours_iter(self, first_dir: Direction) -> (r: Vec<UCoord2>)
        ensures
            r@ == neighbours_from(self, first_dir, 4),
    {
        let mut r: Vec<UCoord2> = Vec::new();
        let d0 = first_dir;
        let d1 = d0.next();
        let d2 = d1.next();
        let d3 = d2.next();
        if neighbour_exists(&self, &d0) {
            r.push(self.get_neighbour(&d0));
        }
        if neighbour_exists(&self, &d1) {
            r.push(self.get_neighbour(&d1));
        }
        if neighbour_exists(&self, &d2) {
            r.push(self.get_neighbour(&d2));
        }
        if neighbour_exists(&self, &d3) {
            r.push(self.get_neighbour(&d3));
        }
        proof {
            reveal_with_fuel(neighbours_from, 5);
            assert(r@ =~= neighbours_from(self, first_dir, 4));
        }
        r
    }
}

/// Whether the neighbour of `c` in direction `d` is representable.
pub fn neighbour_exists(c: &UCoord2, d: &Direction) -> (r: bool)
    ensures
        r == has_neighbour(*c, *d),
{
    match d {
        Direction::Right => c.x < usize::MAX,
        Direction::Down => c.y < usize::MAX,
        Direction::Left => c.x > 0,
        Direction::Up => c.y > 0,
    }
}

} // verus!
