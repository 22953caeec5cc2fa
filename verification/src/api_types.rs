//! Shared data-model types: cardinal directions, typing axes, grid positions
//! and position deltas, and the command messages the grid engine consumes.

use vstd::prelude::*;

verus! {

/// A cardinal direction for single-step cursor movement.
#[derive(Debug, Clone, Copy, PartialEq, Eq, Structural)]
pub enum Direction {
    Up,
    Down,
    Left,
    Right,
}

impl Direction {
    /// The fixed "typewriter carriage" pairing used on wraparound:
    /// Right and Down are paired, Left and Up are paired. This is a fixed
    /// lookup, not a rotation.
    pub open spec fn alternate_spec(self) -> Direction {
        match self {
            Direction::Right => Direction::Down,
            Direction::Down => Direction::Right,
            Direction::Up => Direction::Left,
            Direction::Left => Direction::Up,
        }
    }

    pub fn alternate(&self) -> (r: Self)
        ensures
            r == self.alternate_spec(),
    {
        match self {
            Self::Right => Self::Down,
            Self::Down => Self::Right,
            Self::Up => Self::Left,
            Self::Left => Self::Up,
        }
    }
}

/// The axis the player is currently typing along.
#[derive(Debug, Clone, Copy, PartialEq, Eq, Structural)]
pub enum TypingDir {
    Across,
    Down,
}

impl TypingDir {
    pub open spec fn toggle_spec(self) -> TypingDir {
        match self {
            TypingDir::Across => TypingDir::Down,
            TypingDir::Down => TypingDir::Across,
        }
    }

    pub fn toggle(&self) -> (r: Self)
        ensures
            r == self.toggle_spec(),
    {
        match self {
            Self::Across => Self::Down,
            Self::Down => Self::Across,
        }
    }

    /// The cardinal direction used to advance the cursor after typing:
    /// Across always advances Right, Down always advances Down.
    pub open spec fn advance_dir_spec(self) -> Direction {
        match self {
            TypingDir::Across => Direction::Right,
            TypingDir::Down => Direction::Down,
        }
    }

    pub fn advance_dir(&self) -> (r: Direction)
        ensures
            r == self.advance_dir_spec(),
    {
        match self {
            Self::Across => Direction::Right,
            Self::Down => Direction::Down,
        }
    }
}

/// A grid position: row index first, column index second. Positions are
/// ordered row-major (row first, then column); that ordering decides which
/// cell of a selected word is its "first" cell.
#[derive(Debug, Clone, Copy, PartialEq, Eq, Structural)]
pub struct Pos {
    pub row: usize,
    pub col: usize,
}

impl Pos {
    pub fn new(row: usize, col: usize) -> (r: Self)
        ensures
            r.row == row,
            r.col == col,
    {
        Pos { row, col }
    }

    /// Adds a delta in place. The caller must know the result stays within
    /// the unsigned range on both coordinates.
    pub fn add_ip(&mut self, delta: &DeltaPos)
        requires
            0 <= old(self).row + delta.row <= usize::MAX,
            0 <= old(self).col + delta.col <= usize::MAX,
        ensures
            final(self).row == old(self).row + delta.row,
            final(self).col == old(self).col + delta.col,
    {
        if delta.row >= 0 {
            self.row = self.row + (delta.row as usize);
        } else {
            self.row = self.row - ((-(delta.row as i64)) as usize);
        }
        if delta.col >= 0 {
            self.col = self.col + (delta.col as usize);
        } else {
            self.col = self.col - ((-(delta.col as i64)) as usize);
        }
    }
}

/// A signed offset between grid positions.
#[derive(Debug, Clone, Copy, PartialEq, Eq, Structural)]
pub struct DeltaPos {
    pub row: i32,
    pub col: i32,
}

impl DeltaPos {
    pub fn new(row: i32, col: i32) -> (r: Self)
        ensures
            r.row == row,
            r.col == col,
    {
        DeltaPos { row, col }
    }
}

/// A command issued to the grid engine by the presentation layer.
#[derive(Debug, Clone, Copy)]
pub enum Msg {
    MoveCursor(Direction),
    TypeLetter(char),
    ClearCell,
    ToggleTypingDir,
}

} // verus!
