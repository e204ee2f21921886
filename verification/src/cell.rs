use vstd::prelude::*;

verus! {

/// A simple cell
#[derive(Debug, Clone, Copy, PartialEq, Eq, Structural)]
pub enum Cell {
    /// The cell is alive (true)
    Alive,
    /// The cell is dead (false)
    Dead,
}

/// The two characters that stand for one cell in a rendered board.
pub open spec fn cell_chars(c: Cell) -> Seq<char> {
    match c {
        Cell::Alive => "▓▓"@,
        Cell::Dead => "░░"@,
    }
}

impl Cell {
    /// The textual form of this cell: a dark block when alive, a light one
    /// when dead.
    pub fn render(&self) -> (s: String)
        ensures
            s@ == cell_chars(*self),
    {
        match self {
            Cell::Alive => "▓▓".to_owned(),
            Cell::Dead => "░░".to_owned(),
        }
    }
}

} // verus!
