use vstd::prelude::*;
use crate::outside::choose_cell;
use crate::position::{Board, BoardShift, Position};
use crate::score::{saturated, Score};
use crate::shift::{board_shift, line_order, merge_score, removed_ids, shifted, ShiftOutcome};
use crate::spawn::{free_cell, free_cells, has_free_cell};
use crate::terminal::{game_over, is_game_over};
use crate::tiles::{has_id, is_pow2, lemma_value_sum_concat, lemma_value_sum_nonneg, tiles_wf, value_sum, Tile};

verus! {

/// Whether moves are still accepted.
#[derive(Clone, Copy, Debug, PartialEq, Eq, Hash, Structural)]
pub enum GameState {
    Playing,
    GameOver,
}

/// A new tile can be placed: a cell is free, the sum of values stays within `u32`,
/// and an identity is left.
pub open spec fn can_spawn(board: Board, tiles: Seq<Tile>, next_id: u64) -> bool {
    has_free_cell(board, tiles) && value_sum(tiles) + 2 <= u32::MAX && next_id < u64::MAX
}

/// `after` is `before` with one more tile of value 2 on a cell that was free.
pub open spec fn spawned_onto(board: Board, before: Seq<Tile>, after: Seq<Tile>) -> bool {
    &&& after.len() == before.len() + 1
    &&& after.drop_last() == before
    &&& after.last().value == 2
    &&& free_cell(board, before, after.last().position)
}

/// A game session: the board, the live tiles, the score and the state.
#[derive(Debug)]
pub struct Game {
    pub board: Board,
    pub tiles: Vec<Tile>,
    pub score: Score,
    pub state: GameState,
    /// The identity that the next new tile receives.
    pub next_id: u64,
}

/// The sum of the values of the tiles.
pub fn total_value(tiles: &Vec<Tile>) -> (r: u64)
    requires
        value_sum(tiles@) <= u32::MAX,
    ensures
        r == value_sum(tiles@),
{
    let mut acc: u64 = 0;
    let mut i: usize = 0;
    while i < tiles.len()
        invariant
            i <= tiles@.len(),
            value_sum(tiles@) <= u32::MAX,
            acc == value_sum(tiles@.take(i as int)),
        decreases tiles@.len() - i,
    {
        proof {
            assert(tiles@.take(i + 1).drop_last() =~= tiles@.take(i as int));
            assert(tiles@ =~= tiles@.take(i + 1) + tiles@.skip(i + 1));
            lemma_value_sum_concat(tiles@.take(i + 1), tiles@.skip(i + 1));
            lemma_value_sum_nonneg(tiles@.skip(i + 1));
        }
        acc = acc + tiles[i].value as u64;
        i = i + 1;
    }
    proof {
        assert(tiles@.take(i as int) =~= tiles@);
    }
    acc
}

proof fn lemma_seed_cell(board: Board, tiles: Seq<Tile>)
    requires
        tiles_wf(board, tiles),
        tiles.len() <= 1,
        tiles.len() < board.size * board.size,
    ensures
        has_free_cell(board, tiles),
{
    if tiles.len() == 0 {
        assert(board.size >= 1) by (nonlinear_arith)
            requires
                0 < board.size * board.size,
        ;
        assert(free_cell(board, tiles, Position { x: 0, y: 0 }));
    } else {
        let t = tiles[0].position;
        assert(board.size >= 2) by (nonlinear_arith)
            requires
                1 < board.size * board.size,
        ;
        let p = if t.x == 0 {
            Position { x: 1, y: t.y }
        } else {
            Position { x: 0, y: t.y }
        };
        assert(free_cell(board, tiles, p));
    }
}

impl Game {
    pub open spec fn wf(&self) -> bool {
        &&& tiles_wf(self.board, self.tiles@)
        &&& value_sum(self.tiles@) <= u32::MAX
        &&& self.score.wf()
        &&& forall|i: int| 0 <= i < self.tiles@.len() ==> (#[trigger] self.tiles@[i]).id < self.next_id
    }

    /// Places a tile of value 2 on the free cell `pos`.
    pub fn place_tile(&mut self, pos: Position) -> (r: Tile)
        requires
            old(self).wf(),
            free_cell(old(self).board, old(self).tiles@, pos),
            value_sum(old(self).tiles@) + 2 <= u32::MAX,
            old(self).next_id < u64::MAX,
        ensures
            r == (Tile { id: old(self).next_id, position: pos, value: 2 }),
            !has_id(old(self).tiles@, r.id),
            final(self).tiles@ == old(self).tiles@.push(r),
            final(self).next_id == old(self).next_id + 1,
            final(self).board == old(self).board,
            final(self).score == old(self).score,
            final(self).state == old(self).state,
            value_sum(final(self).tiles@) == value_sum(old(self).tiles@) + 2,
            final(self).wf(),
    {
        let t = Tile { id: self.next_id, position: pos, value: 2 };
        let ghost before = self.tiles@;
        self.tiles.push(t);
        self.next_id = self.next_id + 1;
        proof {
            assert(self.tiles@.drop_last() =~= before);
            assert(forall|i: int| 0 <= i < before.len() ==> #[trigger] before[i].position != pos);
            assert(self.tiles@[before.len() as int] == t);
            assert(is_pow2(1));
            assert(is_pow2(2));
            assert(value_sum(self.tiles@) == value_sum(before) + 2);
        }
        t
    }

    /// Places a tile of value 2 on a free cell drawn at random, if a tile can be
    /// placed at all.
    pub fn spawn_tile(&mut self) -> (r: Option<Tile>)
        requires
            old(self).wf(),
        ensures
            final(self).wf(),
            final(self).board == old(self).board,
            final(self).score == old(self).score,
            final(self).state == old(self).state,
            r is Some <==> can_spawn(old(self).board, old(self).tiles@, old(self).next_id),
            r is None ==> final(self).tiles@ == old(self).tiles@ && final(self).next_id == old(
                self,
            ).next_id,
            r matches Some(t) ==> final(self).tiles@ == old(self).tiles@.push(t) && t.value == 2
                && t.id == old(self).next_id && final(self).next_id == old(self).next_id + 1
                && !has_id(old(self).tiles@, t.id)
                && free_cell(old(self).board, old(self).tiles@, t.position),
            r is Some ==> value_sum(final(self).tiles@) == value_sum(old(self).tiles@) + 2,
    {
        if self.next_id == u64::MAX || total_value(&self.tiles) > (u32::MAX - 2) as u64 {
            return None;
        }
        let free = free_cells(&self.board, &self.tiles);
        proof {
            if has_free_cell(self.board, self.tiles@) {
                let p = choose|p: Position| free_cell(self.board, self.tiles@, p);
                assert(free@.contains(p));
            }
            if free@.len() > 0 {
                assert(free_cell(self.board, self.tiles@, free@[0]));
            }
        }
        match choose_cell(&free) {
            None => None,
            Some(p) => {
                proof {
                    let k = choose|k: int| 0 <= k < free@.len() && free@[k] == p;
                    assert(free_cell(self.board, self.tiles@, free@[k]));
                }
                Some(self.place_tile(p))
            },
        }
    }

    /// Clears the board, zeroes the running score (the best score stays) and
    /// places two tiles on distinct random cells.
    pub fn reset(&mut self)
        requires
            old(self).score.wf(),
        ensures
            final(self).wf(),
            final(self).board == old(self).board,
            final(self).state == GameState::Playing,
            final(self).score.current == 0,
            final(self).score.best == old(self).score.best,
            old(self).next_id < u64::MAX - 1 ==> final(self).tiles@.len() == if old(
                self,
            ).board.size * old(self).board.size >= 2 {
                2
            } else {
                old(self).board.size * old(self).board.size
            },
            forall|i: int|
                0 <= i < final(self).tiles@.len() ==> (#[trigger] final(self).tiles@[i]).value == 2,
    {
        self.tiles = Vec::new();
        self.score.reset();
        self.state = GameState::Playing;
        let ghost cells = self.board.size * self.board.size;
        proof {
            assert(value_sum(self.tiles@) == 0);
            if cells > 0 {
                lemma_seed_cell(self.board, self.tiles@);
            } else {
                assert(self.board.size == 0) by (nonlinear_arith)
                    requires
                        self.board.size * self.board.size == 0,
                ;
            }
        }
        let first = self.spawn_tile();
        proof {
            if cells >= 1 && old(self).next_id < u64::MAX - 1 {
                assert(first is Some);
            }
            if cells >= 2 && old(self).next_id < u64::MAX - 1 {
                lemma_seed_cell(self.board, self.tiles@);
            } else if cells == 1 && self.tiles@.len() == 1 {
                assert(self.board.size == 1) by (nonlinear_arith)
                    requires
                        self.board.size * self.board.size == 1,
                ;
                assert forall|p: Position| !free_cell(self.board, self.tiles@, p) by {
                    if self.board.contains(p) {
                        assert(self.tiles@[0].position == p);
                    }
                }
            }
        }
        self.spawn_tile();

    }

    /// A new session on `board`, seeded with two tiles.
    pub fn new(board: Board) -> (r: Game)
        ensures
            r.wf(),
            r.board == board,
            r.state == GameState::Playing,
            r.score.current == 0,
            r.score.best == 0,
            forall|i: int| 0 <= i < r.tiles@.len() ==> (#[trigger] r.tiles@[i]).value == 2,
            r.tiles@.len() == if board.size * board.size >= 2 {
                2
            } else {
                board.size * board.size
            },
    {
        let mut g = Game {
            board,
            tiles: Vec::new(),
            score: Score::new(),
            state: GameState::Playing,
            next_id: 0,
        };
        g.reset();
        g
    }

    /// Plays one turn toward `dir`: shifts and merges, adds the merged values to
    /// the score, places a new tile on a random free cell, and ends the game when
    /// no move is left. A finished game accepts no turn.
    pub fn turn(&mut self, dir: BoardShift) -> (r: Option<ShiftOutcome>)
        requires
            old(self).wf(),
        ensures
            final(self).wf(),
            final(self).board == old(self).board,
            final(self).score.best >= old(self).score.best,
            old(self).state == GameState::GameOver ==> r is None && final(self).tiles@ == old(
                self,
            ).tiles@ && final(self).score == old(self).score && final(self).state
                == GameState::GameOver,
            old(self).state == GameState::Playing ==> r is Some,
            r matches Some(o) ==> o.removed@ == removed_ids(dir, line_order(dir, old(self).tiles@))
                && o.score_delta == merge_score(dir, line_order(dir, old(self).tiles@))
                && final(self).score.current == saturated(old(self).score.current, o.score_delta),
            r is Some && can_spawn(
                old(self).board,
                shifted(dir, old(self).board, old(self).tiles@),
                old(self).next_id,
            ) ==> spawned_onto(
                old(self).board,
                shifted(dir, old(self).board, old(self).tiles@),
                final(self).tiles@,
            ) && value_sum(final(self).tiles@) == value_sum(old(self).tiles@) + 2,
            r is Some && !can_spawn(
                old(self).board,
                shifted(dir, old(self).board, old(self).tiles@),
                old(self).next_id,
            ) ==> final(self).tiles@ == shifted(dir, old(self).board, old(self).tiles@)
                && value_sum(final(self).tiles@) == value_sum(old(self).tiles@),
            r is Some ==> (final(self).state == GameState::GameOver <==> game_over(
                final(self).board,
                final(self).tiles@,
            )),
    {
        if self.state == GameState::GameOver {
            return None;
        }
        let outcome = board_shift(dir, &self.board, &mut self.tiles);
        self.score.apply(outcome.score_delta);
        let ghost sh = self.tiles@;
        let spawned = self.spawn_tile();
        proof {
            if let Some(t) = spawned {
                assert(self.tiles@.drop_last() =~= sh);
            }
        }
        if is_game_over(&self.board, &self.tiles) {
            self.state = GameState::GameOver;
        }
        Some(outcome)
    }
}

} // verus!
