use vstd::prelude::*;
use crate::position::{Board, Position};
use vstd::seq_lib::{commutative_foldl, lemma_fold_left_permutation};

verus! {

/// A live tile: an identity, the cell it occupies and its value.
#[derive(Clone, Copy, Debug, PartialEq, Eq, Structural)]
pub struct Tile {
    pub id: u64,
    pub position: Position,
    pub value: u32,
}

/// `v` is a power of two.
pub open spec fn is_pow2(v: int) -> bool
    decreases v,
{
    if v <= 0 {
        false
    } else if v == 1 {
        true
    } else {
        v % 2 == 0 && is_pow2(v / 2)
    }
}

/// A tile value is a power of two, at least 2.
pub open spec fn valid_value(v: int) -> bool {
    v >= 2 && is_pow2(v)
}

/// No two tiles of `s` share a cell.
pub open spec fn distinct_positions(s: Seq<Tile>) -> bool {
    forall|i: int, j: int|
        0 <= i < s.len() && 0 <= j < s.len() && i != j ==> s[i].position != s[j].position
}

/// Every tile of `s` lies on `board` and holds a valid value.
pub open spec fn tiles_on_board(board: Board, s: Seq<Tile>) -> bool {
    forall|i: int|
        0 <= i < s.len() ==> board.contains(#[trigger] s[i].position) && valid_value(
            s[i].value as int,
        )
}

/// The invariants of a tile set: on the board, valid values, one tile per cell.
pub open spec fn tiles_wf(board: Board, s: Seq<Tile>) -> bool {
    tiles_on_board(board, s) && distinct_positions(s)
}

pub open spec fn add_value(acc: int, t: Tile) -> int {
    acc + t.value
}

/// The sum of the values of the tiles of `s`.
pub open spec fn value_sum(s: Seq<Tile>) -> int {
    s.fold_left(0int, |acc: int, t: Tile| add_value(acc, t))
}

/// Some tile of `s` has identity `id`.
pub open spec fn has_id(s: Seq<Tile>, id: u64) -> bool {
    exists|i: int| 0 <= i < s.len() && (#[trigger] s[i]).id == id
}

/// Some tile of `s` occupies `p`.
pub open spec fn occupied(s: Seq<Tile>, p: Position) -> bool {
    exists|i: int| 0 <= i < s.len() && (#[trigger] s[i]).position == p
}

pub proof fn lemma_double_pow2(v: int)
    requires
        valid_value(v),
    ensures
        valid_value(v + v),
{
    assert((v + v) / 2 == v);
}

pub proof fn lemma_value_sum_concat(a: Seq<Tile>, b: Seq<Tile>)
    ensures
        value_sum(a + b) == value_sum(a) + value_sum(b),
    decreases b.len(),
{
    if b.len() == 0 {
        assert(a + b =~= a);
    } else {
        assert((a + b).drop_last() =~= a + b.drop_last());
        lemma_value_sum_concat(a, b.drop_last());
    }
}

pub proof fn lemma_value_sum_nonneg(s: Seq<Tile>)
    ensures
        value_sum(s) >= 0,
    decreases s.len(),
{
    if s.len() > 0 {
        lemma_value_sum_nonneg(s.drop_last());
    }
}

/// The sum splits into the first tile's value and the sum of the rest.
pub proof fn lemma_value_sum_front(s: Seq<Tile>, i: int)
    requires
        0 <= i < s.len(),
    ensures
        value_sum(s.skip(i)) == s[i].value + value_sum(s.skip(i + 1)),
        value_sum(s.skip(i + 1)) >= 0,
{
    assert(s.skip(i) =~= seq![s[i]] + s.skip(i + 1));
    lemma_value_sum_concat(seq![s[i]], s.skip(i + 1));
    let one = seq![s[i]];
    assert(one.drop_last() =~= Seq::<Tile>::empty());
    assert(value_sum(one.drop_last()) == 0);
    assert(value_sum(one) == s[i].value);
    lemma_value_sum_nonneg(s.skip(i + 1));
}

/// The sum of one or two tiles.
pub proof fn lemma_value_sum_short(s: Seq<Tile>)
    requires
        1 <= s.len() <= 2,
    ensures
        s.len() == 1 ==> value_sum(s) == s[0].value,
        s.len() == 2 ==> value_sum(s) == s[0].value + s[1].value,
{
    let d = s.drop_last();
    if s.len() == 2 {
        assert(d.drop_last() =~= Seq::<Tile>::empty());
        assert(value_sum(d.drop_last()) == 0);
        assert(value_sum(d) == s[0].value);
    } else {
        assert(d =~= Seq::<Tile>::empty());
        assert(value_sum(d) == 0);
    }
}

/// Reordering the tiles keeps their sum.
pub proof fn lemma_value_sum_permutation(a: Seq<Tile>, b: Seq<Tile>)
    requires
        a.to_multiset() == b.to_multiset(),
    ensures
        value_sum(a) == value_sum(b),
{
    let f = |acc: int, t: Tile| add_value(acc, t);
    assert(commutative_foldl(f));
    lemma_fold_left_permutation(a, b, f, 0int);
}

} // verus!
