use vstd::prelude::*;
use crate::position::{Board, BoardShift, Position};
use crate::shift::{
    arranged, lemma_arrangement_exists, lemma_settled_shift_is_identity, line_order, merge_score,
    removed_ids, same_line, settled, shifted, strictly_sorted,
};
use crate::tiles::{occupied, tiles_wf, Tile};
use vstd::arithmetic::div_mod::lemma_fundamental_div_mod_converse;
use vstd::set_lib::{lemma_len_subset, lemma_subset_equality};

verus! {

/// `a` and `b` are neighbours along a row or a column.
pub open spec fn adjacent(a: Position, b: Position) -> bool {
    (a.x == b.x && (a.y + 1 == b.y || b.y + 1 == a.y)) || (a.y == b.y && (a.x + 1 == b.x || b.x
        + 1 == a.x))
}

/// Two neighbouring tiles of `s` hold equal values.
pub open spec fn has_equal_neighbours(s: Seq<Tile>) -> bool {
    exists|i: int, j: int|
        0 <= i < s.len() && 0 <= j < s.len() && adjacent(s[i].position, s[j].position) && s[i].value
            == s[j].value
}

/// Every cell is taken and no two neighbouring tiles can merge: no shift can change anything.
pub open spec fn game_over(board: Board, s: Seq<Tile>) -> bool {
    s.len() == board.size * board.size && !has_equal_neighbours(s)
}

/// The cell with index `k` when cells are numbered by column, then row.
spec fn grid_cell(size: int, k: int) -> Position {
    Position { x: (k / size) as u8, y: (k % size) as u8 }
}

/// On a board holding as many tiles as cells, every cell holds a tile.
proof fn lemma_full_board_covers(board: Board, tiles: Seq<Tile>)
    requires
        tiles_wf(board, tiles),
        tiles.len() == board.size * board.size,
    ensures
        forall|p: Position| board.contains(p) ==> occupied(tiles, p),
{
    let size = board.size as int;
    let n = size * size;
    let cells = Seq::new(n as nat, |k: int| grid_cell(size, k));
    let held = tiles.map_values(|t: Tile| t.position);
    assert(held.no_duplicates());
    held.unique_seq_to_set();
    cells.lemma_cardinality_of_set();
    assert forall|p: Position| board.contains(p) implies cells.to_set().contains(p) by {
        let k = p.x * size + p.y;
        lemma_fundamental_div_mod_converse(k, size, p.x as int, p.y as int);
        assert(k < n) by (nonlinear_arith)
            requires
                k == p.x * size + p.y,
                p.x < size,
                p.y < size,
                n == size * size,
        ;
        assert(cells[k] == p);
    }
    assert forall|p: Position| held.to_set().contains(p) implies cells.to_set().contains(p) by {
        let i = choose|i: int| 0 <= i < held.len() && held[i] == p;
        assert(board.contains(tiles[i].position));
    }
    vstd::seq_lib::seq_to_set_is_finite(cells);
    vstd::seq_lib::seq_to_set_is_finite(held);
    lemma_len_subset(held.to_set(), cells.to_set());
    lemma_subset_equality(held.to_set(), cells.to_set());
    assert forall|p: Position| board.contains(p) implies occupied(tiles, p) by {
        assert(held.to_set().contains(p));
        let i = choose|i: int| 0 <= i < held.len() && held[i] == p;
        assert(tiles[i].position == p);
    }
}

/// In a strictly ordered sequence, a tile that comes first in the order comes first in the sequence.
proof fn lemma_index_order(dir: BoardShift, s: Seq<Tile>, j: int, i: int)
    requires
        strictly_sorted(dir, s),
        0 <= i < s.len(),
        0 <= j < s.len(),
        dir.precedes(s[j].position, s[i].position),
    ensures
        j < i,
{
    if j > i {
        assert(dir.precedes(s[i].position, s[j].position));
    }
}

/// On a full board, the tiles in processing order lie packed against the target edge.
proof fn lemma_full_board_packed(dir: BoardShift, board: Board, tiles: Seq<Tile>, s: Seq<Tile>, i: int)
    requires
        tiles_wf(board, s),
        arranged(dir, s, tiles),
        forall|p: Position| board.contains(p) ==> occupied(tiles, p),
        0 <= i < s.len(),
    ensures
        dir.distance(board.size as int, s[i].position) == if i > 0 && same_line(dir, s[i - 1], s[i]) {
            dir.distance(board.size as int, s[i - 1].position) + 1
        } else {
            0
        },
{
    broadcast use vstd::seq_lib::group_to_multiset_ensures;

    let size = board.size as int;
    let d = dir.distance(size, s[i].position);
    dir.lemma_distance_bounds(board, s[i].position);
    let target = if i > 0 && same_line(dir, s[i - 1], s[i]) {
        dir.distance(size, s[i - 1].position) + 1
    } else {
        0
    };
    if i > 0 {
        dir.lemma_precedes(size, s[i - 1].position, s[i].position);
    }
    if d != target {
        assert(d > target);
        let q = dir.placed(size, s[i].position, target);
        dir.lemma_placed(size, s[i].position, target);
        assert(occupied(tiles, q));
        let a = choose|a: int| 0 <= a < tiles.len() && (#[trigger] tiles[a]).position == q;
        assert(tiles.to_multiset().contains(tiles[a]));
        assert(s.contains(tiles[a]));
        let j = choose|j: int| 0 <= j < s.len() && s[j] == tiles[a];
        assert(dir.precedes(s[j].position, s[i].position));
        lemma_index_order(dir, s, j, i);
        if j != i - 1 {
            assert(dir.precedes(s[j].position, s[i - 1].position));
            dir.lemma_precedes(size, s[j].position, s[i - 1].position);
        }
    }
}

/// On a full board without equal neighbours, no two tiles next to each other in a
/// line of the processing order hold equal values.
proof fn lemma_full_board_no_merge(dir: BoardShift, board: Board, tiles: Seq<Tile>, s: Seq<Tile>, i: int)
    requires
        tiles_wf(board, s),
        arranged(dir, s, tiles),
        game_over(board, tiles),
        forall|p: Position| board.contains(p) ==> occupied(tiles, p),
        0 <= i < s.len() - 1,
    ensures
        !(same_line(dir, s[i], s[i + 1]) && s[i].value == s[i + 1].value),
{
    broadcast use vstd::seq_lib::group_to_multiset_ensures;

    if same_line(dir, s[i], s[i + 1]) && s[i].value == s[i + 1].value {
        lemma_full_board_packed(dir, board, tiles, s, i + 1);
        assert(adjacent(s[i].position, s[i + 1].position));
        assert(s.to_multiset().contains(s[i]) && s.to_multiset().contains(s[i + 1]));
        assert(tiles.contains(s[i]) && tiles.contains(s[i + 1]));
        let a = choose|a: int| 0 <= a < tiles.len() && tiles[a] == s[i];
        let b = choose|b: int| 0 <= b < tiles.len() && tiles[b] == s[i + 1];
        assert(has_equal_neighbours(tiles));
    }
}

/// On a full board where no two neighbouring tiles hold equal values, no shift
/// moves, merges or scores anything.
pub proof fn lemma_game_over_board_is_fixed(dir: BoardShift, board: Board, tiles: Seq<Tile>)
    requires
        tiles_wf(board, tiles),
        game_over(board, tiles),
    ensures
        shifted(dir, board, tiles) == line_order(dir, tiles),
        shifted(dir, board, tiles).to_multiset() == tiles.to_multiset(),
        merge_score(dir, line_order(dir, tiles)) == 0,
        removed_ids(dir, line_order(dir, tiles)) == Seq::<u64>::empty(),
{
    let s = line_order(dir, tiles);
    let size = board.size as int;
    lemma_arrangement_exists(dir, board, tiles);
    lemma_full_board_covers(board, tiles);
    assert forall|i: int| 0 <= i < s.len() implies dir.distance(size, (#[trigger] s[i]).position)
        == if i > 0 && same_line(dir, s[i - 1], s[i]) {
        dir.distance(size, s[i - 1].position) + 1
    } else {
        0
    } by {
        lemma_full_board_packed(dir, board, tiles, s, i);
    }
    assert forall|i: int| 0 <= i < s.len() - 1 implies !(same_line(dir, #[trigger] s[i], s[i + 1])
        && s[i].value == s[i + 1].value) by {
        lemma_full_board_no_merge(dir, board, tiles, s, i);
    }
    assert(settled(dir, size, s));
    lemma_settled_shift_is_identity(dir, board, tiles);
}

pub fn is_adjacent(a: &Position, b: &Position) -> (r: bool)
    ensures
        r == adjacent(*a, *b),
{
    let (ax, ay, bx, by) = (a.x as u16, a.y as u16, b.x as u16, b.y as u16);
    (ax == bx && (ay + 1 == by || by + 1 == ay)) || (ay == by && (ax + 1 == bx || bx + 1 == ax))
}

/// Whether the game has ended: the board is full and no tile has a neighbour of
/// equal value. While a cell is free the game goes on.
pub fn is_game_over(board: &Board, tiles: &Vec<Tile>) -> (r: bool)
    ensures
        r == game_over(*board, tiles@),
{
    let size = board.size as usize;
    assert(size * size <= 255 * 255) by (nonlinear_arith)
        requires
            size <= 255,
    ;
    if tiles.len() != size * size {
        return false;
    }
    let n = tiles.len();
    let mut i: usize = 0;
    while i < n
        invariant
            n == tiles@.len(),
            i <= n,
            forall|a: int, b: int|
                0 <= a < i && 0 <= b < n ==> !(adjacent(
                    #[trigger] tiles@[a].position,
                    #[trigger] tiles@[b].position,
                ) && tiles@[a].value == tiles@[b].value),
        decreases n - i,
    {
        let mut j: usize = 0;
        while j < n
            invariant
                n == tiles@.len(),
                i < n,
                j <= n,
                forall|a: int, b: int|
                    0 <= a < i && 0 <= b < n ==> !(adjacent(
                        #[trigger] tiles@[a].position,
                        #[trigger] tiles@[b].position,
                    ) && tiles@[a].value == tiles@[b].value),
                forall|b: int|
                    0 <= b < j ==> !(adjacent(tiles@[i as int].position, #[trigger] tiles@[b].position)
                        && tiles@[i as int].value == tiles@[b].value),
            decreases n - j,
        {
            if is_adjacent(&tiles[i].position, &tiles[j].position) && tiles[i].value
                == tiles[j].value {
                return false;
            }
            j = j + 1;
        }
        i = i + 1;
    }
    true
}

} // verus!
