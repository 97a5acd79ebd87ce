use vstd::prelude::*;

verus! {

/// A cell of the grid: column `x`, row `y`.
#[derive(Clone, Copy, Debug, PartialEq, Eq, Hash, Structural)]
pub struct Position {
    pub x: u8,
    pub y: u8,
}

/// The grid's geometry: `size` cells on each side.
#[derive(Clone, Copy, Debug, PartialEq, Eq, Structural)]
pub struct Board {
    pub size: u8,
}

impl Board {
    pub fn new(size: u8) -> (r: Board)
        ensures
            r.size == size,
    {
        Board { size }
    }

    pub open spec fn contains(self, p: Position) -> bool {
        p.x < self.size && p.y < self.size
    }
}

/// The direction toward which every tile slides.
#[derive(Clone, Copy, Debug, PartialEq, Eq, Hash, Structural)]
pub enum BoardShift {
    Left,
    Right,
    Up,
    Down,
}

impl BoardShift {
    /// The coordinate that stays fixed while tiles slide: it names the line.
    pub open spec fn row_key(self, p: Position) -> int {
        match self {
            BoardShift::Left | BoardShift::Right => p.y as int,
            BoardShift::Up | BoardShift::Down => p.x as int,
        }
    }

    /// Primary sort key: lines are visited in this order.
    pub open spec fn line_rank(self, p: Position) -> int {
        match self {
            BoardShift::Left => p.y as int,
            BoardShift::Right => p.y as int,
            BoardShift::Up => -(p.x as int),
            BoardShift::Down => p.x as int,
        }
    }

    /// How far `p` lies from the edge that tiles slide toward.
    pub open spec fn distance(self, size: int, p: Position) -> int {
        match self {
            BoardShift::Left => p.x as int,
            BoardShift::Right => size - 1 - p.x,
            BoardShift::Up => size - 1 - p.y,
            BoardShift::Down => p.y as int,
        }
    }

    /// Secondary sort key, oriented toward the target edge.
    pub open spec fn edge_rank(self, p: Position) -> int {
        match self {
            BoardShift::Left => p.x as int,
            BoardShift::Right => -(p.x as int),
            BoardShift::Up => -(p.y as int),
            BoardShift::Down => p.y as int,
        }
    }

    /// `a` comes strictly before `b` in the processing order of a shift:
    /// by line first, then nearest to the target edge first.
    pub open spec fn precedes(self, a: Position, b: Position) -> bool {
        self.line_rank(a) < self.line_rank(b) || (self.line_rank(a) == self.line_rank(b)
            && self.edge_rank(a) < self.edge_rank(b))
    }

    pub open spec fn order(self, a: Position, b: Position) -> core::cmp::Ordering {
        if self.precedes(a, b) {
            core::cmp::Ordering::Less
        } else if self.precedes(b, a) {
            core::cmp::Ordering::Greater
        } else {
            core::cmp::Ordering::Equal
        }
    }

    /// `p` moved along the sliding axis so that it lies `index` cells from the target edge.
    pub open spec fn placed(self, size: int, p: Position, index: int) -> Position {
        match self {
            BoardShift::Left => Position { x: index as u8, ..p },
            BoardShift::Right => Position { x: (size - 1 - index) as u8, ..p },
            BoardShift::Up => Position { y: (size - 1 - index) as u8, ..p },
            BoardShift::Down => Position { y: index as u8, ..p },
        }
    }

    /// Placing a cell keeps its line and sets its distance from the target edge.
    pub proof fn lemma_placed(self, size: int, p: Position, index: int)
        requires
            0 <= index < size <= 255,
        ensures
            self.row_key(self.placed(size, p, index)) == self.row_key(p),
            self.line_rank(self.placed(size, p, index)) == self.line_rank(p),
            self.distance(size, self.placed(size, p, index)) == index,
            (Board { size: size as u8 }).contains(p) ==> (Board { size: size as u8 }).contains(
                self.placed(size, p, index),
            ),
    {
    }

    /// A cell of the board lies between zero and `size - 1` cells from the target edge,
    /// and placing it at that distance leaves it where it is.
    pub proof fn lemma_distance_bounds(self, board: Board, p: Position)
        requires
            board.contains(p),
        ensures
            0 <= self.distance(board.size as int, p) < board.size,
            self.placed(board.size as int, p, self.distance(board.size as int, p)) == p,
    {
    }

    /// Two cells of one line are ordered by their distance from the target edge;
    /// cells of different lines by their lines.
    pub proof fn lemma_precedes(self, size: int, a: Position, b: Position)
        requires
            self.precedes(a, b),
        ensures
            self.row_key(a) == self.row_key(b) ==> self.distance(size, a) < self.distance(size, b),
            self.row_key(a) != self.row_key(b) ==> self.line_rank(a) < self.line_rank(b),
            self.row_key(a) == self.row_key(b) <==> self.line_rank(a) == self.line_rank(b),
            a != b,
    {
    }

    /// Compares two positions in the order in which a shift visits them.
    pub fn sort(&self, a: &Position, b: &Position) -> (r: core::cmp::Ordering)
        ensures
            r == self.order(*a, *b),
    {
        let (a1, b1, a2, b2) = match self {
            BoardShift::Left => (a.y, b.y, a.x, b.x),
            BoardShift::Right => (a.y, b.y, b.x, a.x),
            BoardShift::Up => (b.x, a.x, b.y, a.y),
            BoardShift::Down => (a.x, b.x, a.y, b.y),
        };
        if a1 < b1 {
            core::cmp::Ordering::Less
        } else if a1 > b1 {
            core::cmp::Ordering::Greater
        } else if a2 < b2 {
            core::cmp::Ordering::Less
        } else if a2 > b2 {
            core::cmp::Ordering::Greater
        } else {
            core::cmp::Ordering::Equal
        }
    }

    /// Moves `position` along the sliding axis to the cell `index` away from the target edge.
    pub fn set_column_position(&self, board_size: u8, position: &mut Position, index: u8)
        requires
            index < board_size,
        ensures
            *final(position) == self.placed(board_size as int, *old(position), index as int),
    {
        match self {
            BoardShift::Left => position.x = index,
            BoardShift::Right => position.x = board_size - 1 - index,
            BoardShift::Up => position.y = board_size - 1 - index,
            BoardShift::Down => position.y = index,
        }
    }

    /// The coordinate that names the line of `position` for this direction.
    pub fn get_row_position(&self, position: &Position) -> (r: u8)
        ensures
            r as int == self.row_key(*position),
    {
        match self {
            BoardShift::Left | BoardShift::Right => position.y,
            BoardShift::Up | BoardShift::Down => position.x,
        }
    }
}

} // verus!
