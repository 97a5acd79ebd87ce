use vstd::prelude::*;
use crate::outside::grid_cells;
use crate::position::{Board, Position};
use crate::tiles::{occupied, Tile};

verus! {

/// `p` is a cell of the board that no tile holds.
pub open spec fn free_cell(board: Board, tiles: Seq<Tile>, p: Position) -> bool {
    board.contains(p) && !occupied(tiles, p)
}

/// The board has a cell that no tile holds.
pub open spec fn has_free_cell(board: Board, tiles: Seq<Tile>) -> bool {
    exists|p: Position| free_cell(board, tiles, p)
}

/// Whether some tile holds `p`.
pub fn is_occupied(tiles: &Vec<Tile>, p: Position) -> (r: bool)
    ensures
        r == occupied(tiles@, p),
{
    let mut i: usize = 0;
    while i < tiles.len()
        invariant
            i <= tiles@.len(),
            forall|k: int| 0 <= k < i ==> (#[trigger] tiles@[k]).position != p,
        decreases tiles@.len() - i,
    {
        if tiles[i].position == p {
            return true;
        }
        i = i + 1;
    }
    false
}

/// Every cell of the board that no tile holds.
pub fn free_cells(board: &Board, tiles: &Vec<Tile>) -> (r: Vec<Position>)
    ensures
        forall|k: int| 0 <= k < r@.len() ==> free_cell(*board, tiles@, #[trigger] r@[k]),
        forall|p: Position| free_cell(*board, tiles@, p) ==> r@.contains(p),
{
    let size = board.size;
    let cells = grid_cells(size);
    let mut r: Vec<Position> = Vec::new();
    let mut k: usize = 0;
    while k < cells.len()
        invariant
            k <= cells@.len(),
            cells@.len() == size * size,
            size == board.size,
            forall|j: int|
                0 <= j < cells@.len() ==> (#[trigger] cells@[j]).0 < size && cells@[j].1 < size,
            forall|a: int, b: int|
                0 <= a < size && 0 <= b < size ==> #[trigger] cells@[a * size + b] == (
                    a as u8,
                    b as u8,
                ),
            forall|j: int| 0 <= j < r@.len() ==> free_cell(*board, tiles@, #[trigger] r@[j]),
            forall|j: int|
                0 <= j < k && free_cell(
                    *board,
                    tiles@,
                    Position { x: (#[trigger] cells@[j]).0, y: cells@[j].1 },
                ) ==> r@.contains(Position { x: cells@[j].0, y: cells@[j].1 }),
        decreases cells@.len() - k,
    {
        let (x, y) = cells[k];
        let p = Position { x, y };
        let ghost r0 = r@;
        if !is_occupied(tiles, p) {
            r.push(p);
            proof {
                assert(r@[r@.len() - 1] == p);
                assert forall|q: Position| r0.contains(q) implies r@.contains(q) by {
                    let i = choose|i: int| 0 <= i < r0.len() && r0[i] == q;
                    assert(r@[i] == q);
                }
            }
        }
        k = k + 1;
    }
    proof {
        assert forall|p: Position| free_cell(*board, tiles@, p) implies r@.contains(p) by {
            let a = p.x as int;
            let b = p.y as int;
            let s = size as int;
            assert(0 <= a * s + b < s * s) by (nonlinear_arith)
                requires
                    0 <= a < s,
                    0 <= b < s,
            ;
            assert(cells@[a * s + b] == (p.x, p.y));
        }
    }
    r
}

} // verus!
