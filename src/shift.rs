use vstd::prelude::*;
use vstd::relations::total_ordering;
use crate::outside::sorted_by_direction;
use crate::position::{Board, BoardShift, Position};
use crate::tiles::{
    has_id, lemma_double_pow2, lemma_value_sum_concat, lemma_value_sum_front,
    lemma_value_sum_permutation, lemma_value_sum_short, tiles_wf, valid_value, value_sum, Tile,
};

verus! {

broadcast use vstd::seq_lib::group_to_multiset_ensures;

/// The tiles of `s` ordered strictly by the direction's processing order.
pub open spec fn strictly_sorted(dir: BoardShift, s: Seq<Tile>) -> bool {
    forall|i: int, j: int|
        0 <= i < j < s.len() ==> dir.precedes(#[trigger] s[i].position, #[trigger] s[j].position)
}

/// `s` holds the tiles of `tiles` in the order in which a shift toward `dir` visits them.
pub open spec fn arranged(dir: BoardShift, s: Seq<Tile>, tiles: Seq<Tile>) -> bool {
    s.to_multiset() == tiles.to_multiset() && strictly_sorted(dir, s)
}

/// The tiles in processing order (unique where no two tiles share a cell).
pub open spec fn line_order(dir: BoardShift, tiles: Seq<Tile>) -> Seq<Tile> {
    choose|s: Seq<Tile>| arranged(dir, s, tiles)
}

pub open spec fn same_line(dir: BoardShift, a: Tile, b: Tile) -> bool {
    dir.row_key(a.position) == dir.row_key(b.position)
}

/// The first two tiles of `s` lie in one line and have equal values.
pub open spec fn merges_at_front(dir: BoardShift, s: Seq<Tile>) -> bool {
    s.len() >= 2 && same_line(dir, s[0], s[1]) && s[0].value == s[1].value
}

/// How many tiles of `s` the first output tile absorbs.
pub open spec fn consumed(dir: BoardShift, s: Seq<Tile>) -> int {
    if merges_at_front(dir, s) {
        2
    } else {
        1
    }
}

/// The column of the next output tile: one further along in the same line, else zero.
pub open spec fn next_column(dir: BoardShift, s: Seq<Tile>, column: int) -> int {
    let rest = s.skip(consumed(dir, s));
    if rest.len() > 0 && same_line(dir, s[0], rest[0]) {
        column + 1
    } else {
        0
    }
}

/// The output tile made from the front of `s`, placed at `column`.
pub open spec fn front_tile(dir: BoardShift, size: int, s: Seq<Tile>, column: int) -> Tile {
    Tile {
        id: s[0].id,
        position: dir.placed(size, s[0].position, column),
        value: if merges_at_front(dir, s) {
            (s[0].value + s[1].value) as u32
        } else {
            s[0].value
        },
    }
}

/// One pass over tiles in processing order: each tile slides to `column` (counted
/// from the target edge, restarting at every new line) and absorbs the next tile
/// when that one lies in the same line and has the same value.
pub open spec fn compact(dir: BoardShift, size: int, s: Seq<Tile>, column: int) -> Seq<Tile>
    decreases s.len(),
{
    if s.len() == 0 {
        seq![]
    } else {
        seq![front_tile(dir, size, s, column)] + compact(
            dir,
            size,
            s.skip(consumed(dir, s)),
            next_column(dir, s, column),
        )
    }
}

/// The identities of the tiles that the pass merges away.
pub open spec fn removed_ids(dir: BoardShift, s: Seq<Tile>) -> Seq<u64>
    decreases s.len(),
{
    if s.len() == 0 {
        seq![]
    } else {
        (if merges_at_front(dir, s) {
            seq![s[1].id]
        } else {
            seq![]
        }) + removed_ids(dir, s.skip(consumed(dir, s)))
    }
}

/// The sum of the values of the tiles that the pass creates by merging.
pub open spec fn merge_score(dir: BoardShift, s: Seq<Tile>) -> int
    decreases s.len(),
{
    if s.len() == 0 {
        0
    } else {
        (if merges_at_front(dir, s) {
            s[0].value + s[1].value
        } else {
            0int
        }) + merge_score(dir, s.skip(consumed(dir, s)))
    }
}

/// The tiles after shifting `tiles` toward `dir`.
pub open spec fn shifted(dir: BoardShift, board: Board, tiles: Seq<Tile>) -> Seq<Tile> {
    compact(dir, board.size as int, line_order(dir, tiles), 0)
}

/// The input tiles, in processing order, that make up each output tile of the pass.
pub open spec fn merge_groups(dir: BoardShift, s: Seq<Tile>) -> Seq<Seq<Tile>>
    decreases s.len(),
{
    if s.len() == 0 {
        seq![]
    } else {
        seq![s.take(consumed(dir, s))] + merge_groups(dir, s.skip(consumed(dir, s)))
    }
}

/// A group of input tiles forms one output tile: a single tile, or two tiles of
/// one line with equal values.
pub open spec fn single_or_pair(dir: BoardShift, g: Seq<Tile>) -> bool {
    g.len() == 1 || (g.len() == 2 && same_line(dir, g[0], g[1]) && g[0].value == g[1].value)
}

/// Tiles in processing order that already lie packed against the target edge,
/// each line without gaps, and with no two equal values next to each other in a line.
pub open spec fn settled(dir: BoardShift, size: int, s: Seq<Tile>) -> bool {
    &&& forall|i: int|
        0 <= i < s.len() ==> dir.distance(size, (#[trigger] s[i]).position) == if i > 0
            && same_line(dir, s[i - 1], s[i]) {
            dir.distance(size, s[i - 1].position) + 1
        } else {
            0
        }
    &&& forall|i: int|
        0 <= i < s.len() - 1 ==> !(same_line(dir, #[trigger] s[i], s[i + 1]) && s[i].value == s[i
            + 1].value)
}

/// What a shift reports besides the new tile set.
#[derive(Debug)]
pub struct ShiftOutcome {
    /// Identities of the tiles merged into another one, in processing order.
    pub removed: Vec<u64>,
    /// Sum of the values of the tiles created by merging.
    pub score_delta: u32,
}

proof fn lemma_positions_total(dir: BoardShift, a: Position, b: Position)
    requires
        a != b,
        !dir.precedes(b, a),
    ensures
        dir.precedes(a, b),
{
}

/// Sorting tiles that occupy distinct cells orders them strictly.
proof fn lemma_sorted_strictly(dir: BoardShift, board: Board, r: Seq<Tile>, tiles: Seq<Tile>)
    requires
        tiles_wf(board, tiles),
        r.to_multiset() == tiles.to_multiset(),
        forall|i: int, j: int| 0 <= i < j < r.len() ==> !dir.precedes(r[j].position, r[i].position),
    ensures
        arranged(dir, r, tiles),
        tiles_wf(board, r),
{
    assert(tiles.no_duplicates());
    tiles.lemma_multiset_has_no_duplicates();
    r.lemma_multiset_has_no_duplicates_conv();
    assert forall|i: int| 0 <= i < r.len() implies exists|a: int|
        0 <= a < tiles.len() && tiles[a] == #[trigger] r[i] by {
        assert(r.to_multiset().contains(r[i]));
        assert(tiles.contains(r[i]));
    }
    assert forall|i: int, j: int| 0 <= i < r.len() && 0 <= j < r.len() && i != j implies r[i].position
        != r[j].position by {
        let a = choose|a: int| 0 <= a < tiles.len() && tiles[a] == r[i];
        let b = choose|b: int| 0 <= b < tiles.len() && tiles[b] == r[j];
    }
    assert forall|i: int, j: int| 0 <= i < j < r.len() implies dir.precedes(
        #[trigger] r[i].position,
        #[trigger] r[j].position,
    ) by {
        lemma_positions_total(dir, r[i].position, r[j].position);
    }
    assert forall|i: int| 0 <= i < r.len() implies board.contains(#[trigger] r[i].position)
        && valid_value(r[i].value as int) by {
        let a = choose|a: int| 0 <= a < tiles.len() && tiles[a] == r[i];
    }
}

/// A total order on tiles that refines the processing order of their cells.
spec fn tile_leq(dir: BoardShift, a: Tile, b: Tile) -> bool {
    dir.precedes(a.position, b.position) || (a.position == b.position && (a.id < b.id || (a.id
        == b.id && a.value <= b.value)))
}

/// Every tile set on a board has an arrangement in processing order.
pub(crate) proof fn lemma_arrangement_exists(dir: BoardShift, board: Board, tiles: Seq<Tile>)
    requires
        tiles_wf(board, tiles),
    ensures
        arranged(dir, line_order(dir, tiles), tiles),
        tiles_wf(board, line_order(dir, tiles)),
{
    let leq = |a: Tile, b: Tile| tile_leq(dir, a, b);
    assert(total_ordering(leq)) by {
        assert forall|a: Tile, b: Tile| #[trigger] leq(a, b) && #[trigger] leq(b, a) implies a == b by {
            if a.position == b.position {
                assert(a.id == b.id && a.value == b.value);
            }
        }
    }
    let r = tiles.sort_by(leq);
    tiles.lemma_sort_by_ensures(leq);
    assert forall|i: int, j: int| 0 <= i < j < r.len() implies !dir.precedes(
        r[j].position,
        r[i].position,
    ) by {
        assert(leq(r[i], r[j]));
    }
    lemma_sorted_strictly(dir, board, r, tiles);
    lemma_line_order(dir, r, tiles);
}

/// Two strictly ordered arrangements of the same tiles are equal.
proof fn lemma_arranged_unique(dir: BoardShift, x: Seq<Tile>, y: Seq<Tile>)
    requires
        strictly_sorted(dir, x),
        strictly_sorted(dir, y),
        x.to_multiset() == y.to_multiset(),
    ensures
        x == y,
    decreases x.len(),
{
    broadcast use vstd::multiset::group_multiset_axioms;

    if x.len() == 0 || y.len() == 0 {
        assert(x.to_multiset().len() == 0 && y.to_multiset().len() == 0);
        assert(x =~= y);
    } else {
        assert(x.to_multiset().contains(x[0]));
        assert(y.to_multiset().contains(y[0]));
        let i = choose|i: int| 0 <= i < x.len() && x[i] == y[0];
        let j = choose|j: int| 0 <= j < y.len() && y[j] == x[0];
        if i > 0 {
            assert(dir.precedes(x[0].position, x[i].position));
            if j > 0 {
                assert(dir.precedes(y[0].position, y[j].position));
            }
        }
        assert(x[0] == y[0]);
        vstd::seq_lib::to_multiset_remove(x, 0);
        vstd::seq_lib::to_multiset_remove(y, 0);
        assert(x.remove(0) =~= x.drop_first());
        assert(y.remove(0) =~= y.drop_first());
        lemma_arranged_unique(dir, x.drop_first(), y.drop_first());
        assert(x =~= seq![x[0]] + x.drop_first());
        assert(y =~= seq![y[0]] + y.drop_first());
    }
}

/// The result of sorting is the processing order.
proof fn lemma_line_order(dir: BoardShift, s: Seq<Tile>, tiles: Seq<Tile>)
    requires
        arranged(dir, s, tiles),
    ensures
        line_order(dir, tiles) == s,
{
    let t = line_order(dir, tiles);
    assert(arranged(dir, t, tiles));
    lemma_arranged_unique(dir, s, t);
}

/// The pass keeps the processing order strict, keeps tiles on the board with valid
/// values, and keeps the sum of values. Every output tile lies in the line of the
/// first input tile at `column` or further, or in a later line.
proof fn lemma_compact(dir: BoardShift, board: Board, s: Seq<Tile>, column: int)
    requires
        strictly_sorted(dir, s),
        tiles_wf(board, s),
        value_sum(s) <= u32::MAX,
        s.len() > 0 ==> 0 <= column <= dir.distance(board.size as int, s[0].position),
    ensures
        strictly_sorted(dir, compact(dir, board.size as int, s, column)),
        tiles_wf(board, compact(dir, board.size as int, s, column)),
        value_sum(compact(dir, board.size as int, s, column)) == value_sum(s),
        s.len() > 0 ==> forall|k: int|
            0 <= k < compact(dir, board.size as int, s, column).len() ==> {
                let p = (#[trigger] compact(dir, board.size as int, s, column)[k]).position;
                dir.line_rank(p) > dir.line_rank(s[0].position) || (dir.line_rank(p)
                    == dir.line_rank(s[0].position) && dir.distance(board.size as int, p)
                    >= column)
            },
    decreases s.len(),
{
    let size = board.size as int;
    let out = compact(dir, size, s, column);
    if s.len() == 0 {
        assert(value_sum(out) == 0);
    } else {
        let k = consumed(dir, s);
        let rest = s.skip(k);
        let c2 = next_column(dir, s, column);
        let h = front_tile(dir, size, s, column);
        let tail = compact(dir, size, rest, c2);
        assert(s.skip(0) =~= s);
        lemma_value_sum_front(s, 0);
        if k == 2 {
            lemma_value_sum_front(s, 1);
            assert(s.skip(1).skip(1) =~= rest);
        }
        dir.lemma_distance_bounds(board, s[0].position);
        dir.lemma_placed(size, s[0].position, column);
        if rest.len() > 0 {
            dir.lemma_precedes(size, s[0].position, rest[0].position);
            if k == 2 {
                dir.lemma_precedes(size, s[1].position, rest[0].position);
            }
        }
        assert(tiles_wf(board, rest));
        lemma_compact(dir, board, rest, c2);
        if k == 2 {
            lemma_double_pow2(s[0].value as int);
        }
        assert(out == seq![h] + tail);
        assert(tiles_wf(board, out));
        assert forall|a: int, b: int| 0 <= a < b < out.len() implies dir.precedes(
            #[trigger] out[a].position,
            #[trigger] out[b].position,
        ) by {
            if a == 0 {
                assert(out[b] == tail[b - 1]);
            } else {
                assert(out[a] == tail[a - 1] && out[b] == tail[b - 1]);
            }
        }
        assert forall|j: int| 0 <= j < out.len() implies {
            let p = (#[trigger] out[j]).position;
            dir.line_rank(p) > dir.line_rank(s[0].position) || (dir.line_rank(p)
                == dir.line_rank(s[0].position) && dir.distance(size, p) >= column)
        } by {
            if j > 0 {
                assert(out[j] == tail[j - 1]);
            }
        }
        lemma_value_sum_concat(seq![h], tail);
        let one = seq![h];
        assert(one.drop_last() =~= Seq::<Tile>::empty());
        assert(value_sum(one.drop_last()) == 0);
        assert(value_sum(one) == h.value);
    }
}

/// Every tile of the pass keeps the identity of a tile of its input.
proof fn lemma_compact_ids(dir: BoardShift, size: int, s: Seq<Tile>, column: int)
    ensures
        forall|k: int|
            0 <= k < compact(dir, size, s, column).len() ==> has_id(
                s,
                (#[trigger] compact(dir, size, s, column)[k]).id,
            ),
    decreases s.len(),
{
    if s.len() > 0 {
        let c = consumed(dir, s);
        let rest = s.skip(c);
        let out = compact(dir, size, s, column);
        let tail = compact(dir, size, rest, next_column(dir, s, column));
        lemma_compact_ids(dir, size, rest, next_column(dir, s, column));
        assert forall|k: int| 0 <= k < out.len() implies has_id(s, (#[trigger] out[k]).id) by {
            if k == 0 {
                assert(s[0].id == out[0].id);
            } else {
                assert(out[k] == tail[k - 1]);
                assert(has_id(rest, tail[k - 1].id));
                let j = choose|j: int| 0 <= j < rest.len() && (#[trigger] rest[j]).id == tail[k - 1].id;
                assert(s[j + c] == rest[j]);
            }
        }
    }
}

/// A shift gives every remaining tile the identity of a tile from before it.
pub proof fn lemma_shift_keeps_ids(dir: BoardShift, board: Board, tiles: Seq<Tile>)
    requires
        tiles_wf(board, tiles),
    ensures
        forall|k: int|
            0 <= k < shifted(dir, board, tiles).len() ==> has_id(
                tiles,
                (#[trigger] shifted(dir, board, tiles)[k]).id,
            ),
{
    let s = line_order(dir, tiles);
    let out = shifted(dir, board, tiles);
    lemma_arrangement_exists(dir, board, tiles);
    lemma_compact_ids(dir, board.size as int, s, 0);
    assert forall|k: int| 0 <= k < out.len() implies has_id(tiles, (#[trigger] out[k]).id) by {
        assert(has_id(s, out[k].id));
        let j = choose|j: int| 0 <= j < s.len() && (#[trigger] s[j]).id == out[k].id;
        assert(s.to_multiset().contains(s[j]));
        assert(tiles.contains(s[j]));
        let i = choose|i: int| 0 <= i < tiles.len() && tiles[i] == s[j];
        assert(tiles[i].id == out[k].id);
    }
}

proof fn lemma_groups(dir: BoardShift, size: int, s: Seq<Tile>, column: int)
    requires
        value_sum(s) <= u32::MAX,
    ensures
        merge_groups(dir, s).len() == compact(dir, size, s, column).len(),
        merge_groups(dir, s).flatten() == s,
        forall|k: int|
            0 <= k < merge_groups(dir, s).len() ==> single_or_pair(
                dir,
                #[trigger] merge_groups(dir, s)[k],
            ) && compact(dir, size, s, column)[k].value == value_sum(merge_groups(dir, s)[k])
                && compact(dir, size, s, column)[k].id == merge_groups(dir, s)[k][0].id,
    decreases s.len(),
{
    let g = merge_groups(dir, s);
    let out = compact(dir, size, s, column);
    if s.len() == 0 {
        assert(g.flatten() =~= s);
    } else {
        let k = consumed(dir, s);
        let rest = s.skip(k);
        assert(s.skip(0) =~= s);
        lemma_value_sum_front(s, 0);
        if k == 2 {
            lemma_value_sum_front(s, 1);
            assert(s.skip(1).skip(1) =~= rest);
        }
        lemma_groups(dir, size, rest, next_column(dir, s, column));
        lemma_value_sum_short(s.take(k));
        assert(g.drop_first() =~= merge_groups(dir, rest));
        assert(s.take(k) + rest =~= s);
        assert forall|j: int| 0 <= j < g.len() implies single_or_pair(dir, #[trigger] g[j])
            && out[j].value == value_sum(g[j]) && out[j].id == g[j][0].id by {
            if j > 0 {
                assert(g[j] == merge_groups(dir, rest)[j - 1]);
            }
        }
    }
}

proof fn lemma_settled_pass(dir: BoardShift, board: Board, s: Seq<Tile>, column: int)
    requires
        tiles_wf(board, s),
        s.len() > 0 ==> dir.distance(board.size as int, s[0].position) == column,
        forall|i: int|
            1 <= i < s.len() ==> dir.distance(board.size as int, (#[trigger] s[i]).position) == if same_line(
                dir,
                s[i - 1],
                s[i],
            ) {
                dir.distance(board.size as int, s[i - 1].position) + 1
            } else {
                0
            },
        forall|i: int|
            0 <= i < s.len() - 1 ==> !(same_line(dir, #[trigger] s[i], s[i + 1]) && s[i].value == s[i
                + 1].value),
    ensures
        compact(dir, board.size as int, s, column) == s,
        merge_score(dir, s) == 0,
        removed_ids(dir, s) == Seq::<u64>::empty(),
    decreases s.len(),
{
    if s.len() > 0 {
        let rest = s.skip(1);
        dir.lemma_distance_bounds(board, s[0].position);
        assert(tiles_wf(board, rest));
        assert forall|i: int| 1 <= i < rest.len() implies dir.distance(board.size as int, (#[trigger] rest[i]).position) == if same_line(
            dir,
            rest[i - 1],
            rest[i],
        ) {
            dir.distance(board.size as int, rest[i - 1].position) + 1
        } else {
            0
        } by {
            assert(rest[i] == s[i + 1] && rest[i - 1] == s[i]);
        }
        assert forall|i: int| 0 <= i < rest.len() - 1 implies !(same_line(dir, #[trigger] rest[i], rest[i + 1]) && rest[i].value == rest[i
                + 1].value) by {
            assert(rest[i] == s[i + 1] && rest[i + 1] == s[i + 2]);
        }
        if rest.len() > 0 {
            assert(rest[0] == s[1]);
        }
        lemma_settled_pass(dir, board, rest, next_column(dir, s, column));
        assert(front_tile(dir, board.size as int, s, column) == s[0]);
        assert(seq![s[0]] + rest =~= s);
        assert(Seq::<u64>::empty() + Seq::<u64>::empty() =~= Seq::<u64>::empty());
    }
}

/// A shift keeps the invariants of a tile set: every tile on the board with a valid
/// value, and no two tiles in one cell.
pub proof fn lemma_shift_keeps_invariants(dir: BoardShift, board: Board, tiles: Seq<Tile>)
    requires
        tiles_wf(board, tiles),
        value_sum(tiles) <= u32::MAX,
    ensures
        tiles_wf(board, shifted(dir, board, tiles)),
{
    lemma_arrangement_exists(dir, board, tiles);
    lemma_value_sum_permutation(line_order(dir, tiles), tiles);
    lemma_compact(dir, board, line_order(dir, tiles), 0);
}

/// Merging only recombines values: a shift keeps the sum of all tile values.
pub proof fn lemma_shift_conserves_value(dir: BoardShift, board: Board, tiles: Seq<Tile>)
    requires
        tiles_wf(board, tiles),
        value_sum(tiles) <= u32::MAX,
    ensures
        value_sum(shifted(dir, board, tiles)) == value_sum(tiles),
{
    lemma_arrangement_exists(dir, board, tiles);
    lemma_value_sum_permutation(line_order(dir, tiles), tiles);
    lemma_compact(dir, board, line_order(dir, tiles), 0);
}

/// No tile merges twice in one shift: each tile after the shift is made of one tile
/// from before or of exactly two equal tiles of one line, next to each other in
/// processing order; it keeps the identity of the first of them. Each tile from
/// before goes into exactly one tile after the shift.
pub proof fn lemma_shift_merges_once(dir: BoardShift, board: Board, tiles: Seq<Tile>)
    requires
        tiles_wf(board, tiles),
        value_sum(tiles) <= u32::MAX,
    ensures
        merge_groups(dir, line_order(dir, tiles)).len() == shifted(dir, board, tiles).len(),
        merge_groups(dir, line_order(dir, tiles)).flatten() == line_order(dir, tiles),
        merge_groups(dir, line_order(dir, tiles)).flatten().to_multiset() == tiles.to_multiset(),
        forall|k: int|
            0 <= k < shifted(dir, board, tiles).len() ==> single_or_pair(
                dir,
                #[trigger] merge_groups(dir, line_order(dir, tiles))[k],
            ) && shifted(dir, board, tiles)[k].value == value_sum(
                merge_groups(dir, line_order(dir, tiles))[k],
            ) && shifted(dir, board, tiles)[k].id == merge_groups(dir, line_order(dir, tiles))[k][0].id,
{
    lemma_arrangement_exists(dir, board, tiles);
    lemma_value_sum_permutation(line_order(dir, tiles), tiles);
    lemma_groups(dir, board.size as int, line_order(dir, tiles), 0);
}

/// Shifting tiles that already lie packed toward the direction, with no equal
/// neighbours in a line, moves nothing, merges nothing and scores nothing.
pub proof fn lemma_settled_shift_is_identity(dir: BoardShift, board: Board, tiles: Seq<Tile>)
    requires
        tiles_wf(board, tiles),
        settled(dir, board.size as int, line_order(dir, tiles)),
    ensures
        shifted(dir, board, tiles) == line_order(dir, tiles),
        shifted(dir, board, tiles).to_multiset() == tiles.to_multiset(),
        merge_score(dir, line_order(dir, tiles)) == 0,
        removed_ids(dir, line_order(dir, tiles)) == Seq::<u64>::empty(),
{
    let s = line_order(dir, tiles);
    lemma_arrangement_exists(dir, board, tiles);
    assert forall|i: int|
        1 <= i < s.len() implies dir.distance(board.size as int, (#[trigger] s[i]).position) == if same_line(
            dir,
            s[i - 1],
            s[i],
        ) {
            dir.distance(board.size as int, s[i - 1].position) + 1
        } else {
            0
        } by {}
    if s.len() > 0 {
        assert(dir.distance(board.size as int, s[0].position) == 0);
    }
    lemma_settled_pass(dir, board, s, 0);
}

/// Unfolds one step of the pass at index `i` of `s`.
proof fn lemma_step(dir: BoardShift, size: int, s: Seq<Tile>, i: int, column: int)
    requires
        0 <= i < s.len(),
    ensures
        s.skip(i).skip(consumed(dir, s.skip(i))) == s.skip(i + consumed(dir, s.skip(i))),
        compact(dir, size, s.skip(i), column) == seq![front_tile(dir, size, s.skip(i), column)]
            + compact(
            dir,
            size,
            s.skip(i + consumed(dir, s.skip(i))),
            next_column(dir, s.skip(i), column),
        ),
        removed_ids(dir, s.skip(i)) == (if merges_at_front(dir, s.skip(i)) {
            seq![s[i + 1].id]
        } else {
            seq![]
        }) + removed_ids(dir, s.skip(i + consumed(dir, s.skip(i)))),
        merge_score(dir, s.skip(i)) == (if merges_at_front(dir, s.skip(i)) {
            s[i].value + s[i + 1].value
        } else {
            0int
        }) + merge_score(dir, s.skip(i + consumed(dir, s.skip(i)))),
{
    let k = consumed(dir, s.skip(i));
    assert(s.skip(i).skip(k) =~= s.skip(i + k));
}

/// Slides every tile toward `dir`, merging each pair of equal neighbours of a line
/// once, nearest the target edge first. Merged-away tiles leave the set; their
/// identities and the values created by merging are reported.
#[verifier::rlimit(40)]
pub fn board_shift(dir: BoardShift, board: &Board, tiles: &mut Vec<Tile>) -> (r: ShiftOutcome)
    requires
        tiles_wf(*board, old(tiles)@),
        value_sum(old(tiles)@) <= u32::MAX,
    ensures
        final(tiles)@ == shifted(dir, *board, old(tiles)@),
        r.removed@ == removed_ids(dir, line_order(dir, old(tiles)@)),
        r.score_delta == merge_score(dir, line_order(dir, old(tiles)@)),
        tiles_wf(*board, final(tiles)@),
        value_sum(final(tiles)@) == value_sum(old(tiles)@),
        forall|k: int|
            0 <= k < final(tiles)@.len() ==> has_id(old(tiles)@, (#[trigger] final(tiles)@[k]).id),
{
    let ghost before = tiles@;
    let s = sorted_by_direction(tiles, dir);
    proof {
        lemma_sorted_strictly(dir, *board, s@, before);
        lemma_line_order(dir, s@, before);
        lemma_value_sum_permutation(s@, before);
        assert(s@.skip(0) =~= s@);
    }
    let n = s.len();
    let size = board.size;
    let mut out: Vec<Tile> = Vec::new();
    let mut removed: Vec<u64> = Vec::new();
    let mut delta: u32 = 0;
    let mut column: u8 = 0;
    let mut i: usize = 0;
    while i < n
        invariant
            n == s@.len(),
            i <= n,
            size == board.size,
            strictly_sorted(dir, s@),
            tiles_wf(*board, s@),
            value_sum(s@) <= u32::MAX,
            compact(dir, size as int, s@, 0) == out@ + compact(dir, size as int, s@.skip(i as int), column as int),
            removed_ids(dir, s@) == removed@ + removed_ids(dir, s@.skip(i as int)),
            merge_score(dir, s@) == delta + merge_score(dir, s@.skip(i as int)),
            delta + value_sum(s@.skip(i as int)) <= value_sum(s@),
            i < n ==> column <= dir.distance(size as int, s@[i as int].position),
        decreases n - i,
    {
        let ghost cur = s@.skip(i as int);
        let ghost col = column as int;
        let ghost out0 = out@;
        let ghost removed0 = removed@;
        proof {
            lemma_step(dir, size as int, s@, i as int, col);
            dir.lemma_distance_bounds(*board, s@[i as int].position);
            lemma_value_sum_front(s@, i as int);
            if i + 1 < n {
                lemma_value_sum_front(s@, i + 1);
            }
        }
        let first = s[i];
        let mut tile = first;
        dir.set_column_position(size, &mut tile.position, column);
        let row = dir.get_row_position(&first.position);
        if i + 1 < n && dir.get_row_position(&s[i + 1].position) == row && s[i + 1].value
            == first.value {
            tile.value = first.value + s[i + 1].value;
            delta = delta + tile.value;
            removed.push(s[i + 1].id);
            i = i + 2;
        } else {
            i = i + 1;
        }
        assert(tile == front_tile(dir, size as int, cur, col));
        out.push(tile);
        if i < n && dir.get_row_position(&s[i].position) == row {
            proof {
                dir.lemma_precedes(size as int, s@[i - 1].position, s@[i as int].position);
                if i >= 2 && s@[i - 2] == first {
                    dir.lemma_precedes(size as int, first.position, s@[i - 1].position);
                }
            }
            column = column + 1;
        } else {
            column = 0;
        }
        proof {
            let rest = compact(dir, size as int, s@.skip(i as int), column as int);
            assert(out0 + (seq![tile] + rest) =~= out@ + rest);
            let rrest = removed_ids(dir, s@.skip(i as int));
            if merges_at_front(dir, cur) {
                assert(removed0 + (seq![s@[i - 1].id] + rrest) =~= removed@ + rrest);
            } else {
                assert(removed0 + (Seq::<u64>::empty() + rrest) =~= removed@ + rrest);
            }
        }
    }
    proof {
        assert(s@.skip(n as int) =~= Seq::<Tile>::empty());
        assert(out@ =~= out@ + Seq::<Tile>::empty());
        assert(removed@ =~= removed@ + Seq::<u64>::empty());
    }
    proof {
        lemma_shift_keeps_invariants(dir, *board, before);
        lemma_shift_conserves_value(dir, *board, before);
        lemma_shift_keeps_ids(dir, *board, before);
    }
    *tiles = out;
    ShiftOutcome { removed, score_delta: delta }
}

} // verus!
