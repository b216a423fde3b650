use vstd::prelude::*;

verus! {

/// One tile of the cave. Rock-like tiles carry a flag that says whether
/// they are currently in motion.
#[derive(Copy, Clone, Debug, PartialEq, Eq, Structural)]
pub enum Cell {
    Empty,
    Soil,
    Metal,
    Diamond(bool),
    Boulder(bool),
    Player,
    Enemy,
}

/// A falling rock may land on or roll past these cells.
pub open spec fn is_crushable(c: Cell) -> bool {
    c is Empty || c is Player || c is Enemy
}

/// Boulders and diamonds share the same physics.
pub open spec fn is_rock(c: Cell) -> bool {
    c is Boulder || c is Diamond
}

pub open spec fn is_falling(c: Cell) -> bool {
    c == Cell::Boulder(true) || c == Cell::Diamond(true)
}

impl Cell {
    pub fn crushable(cell: Cell) -> (r: bool)
        ensures
            r == is_crushable(cell),
    {
        match cell {
            Cell::Empty | Cell::Player | Cell::Enemy => true,
            _ => false,
        }
    }

    pub fn rock(cell: Cell) -> (r: bool)
        ensures
            r == is_rock(cell),
    {
        match cell {
            Cell::Boulder(_) | Cell::Diamond(_) => true,
            _ => false,
        }
    }

    pub fn falling(cell: Cell) -> (r: bool)
        ensures
            r == is_falling(cell),
    {
        match cell {
            Cell::Boulder(true) | Cell::Diamond(true) => true,
            _ => false,
        }
    }

    pub fn empty(cell: Cell) -> (r: bool)
        ensures
            r == (cell is Empty),
    {
        match cell {
            Cell::Empty => true,
            _ => false,
        }
    }
}

} // verus!
