use vstd::prelude::*;
use itertools::Itertools;
use rand::seq::SliceRandom;
use crate::position::{BoardShift, Position};
use crate::tiles::Tile;

verus! {

/// Relies on itertools' `Itertools::sorted_by`, which collects the items and sorts
/// them with `slice::sort_by` under the given comparator: the result holds the same
/// tiles, and no tile comes after one that the direction's order puts behind it.
#[verifier::external_body]
pub(crate) fn sorted_by_direction(tiles: &Vec<Tile>, dir: BoardShift) -> (r: Vec<Tile>)
    ensures
        r@.to_multiset() == tiles@.to_multiset(),
        forall|i: int, j: int|
            0 <= i < j < r@.len() ==> !dir.precedes(r@[j].position, r@[i].position),
{
    tiles.iter().copied().sorted_by(|a, b| dir.sort(&a.position, &b.position)).collect()
}

/// Relies on itertools' `Itertools::cartesian_product` over `0..size` twice: every
/// pair of coordinates below `size`, the first one varying slowest.
#[verifier::external_body]
pub(crate) fn grid_cells(size: u8) -> (r: Vec<(u8, u8)>)
    ensures
        r@.len() == size * size,
        forall|k: int| 0 <= k < r@.len() ==> (#[trigger] r@[k]).0 < size && r@[k].1 < size,
        forall|a: int, b: int|
            0 <= a < size && 0 <= b < size ==> #[trigger] r@[a * size + b] == (a as u8, b as u8),
{
    (0..size).cartesian_product(0..size).collect()
}

/// Relies on rand's `SliceRandom::choose` with the thread-local generator: `None`
/// for an empty slice, else one of its elements.
#[verifier::external_body]
pub(crate) fn choose_cell(cells: &Vec<Position>) -> (r: Option<Position>)
    ensures
        r is None <==> cells@.len() == 0,
        r matches Some(p) ==> cells@.contains(p),
{
    cells.choose(&mut rand::thread_rng()).copied()
}

} // verus!
