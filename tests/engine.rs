use game2048::game::{total_value, Game, GameState};
use game2048::position::{Board, BoardShift, Position};
use game2048::score::Score;
use game2048::shift::board_shift;
use game2048::spawn::{free_cells, is_occupied};
use game2048::terminal::{is_adjacent, is_game_over};
use game2048::tiles::Tile;
use std::cmp::Ordering;

fn tile(id: u64, x: u8, y: u8, value: u32) -> Tile {
    Tile { id, position: Position { x, y }, value }
}

fn cells(tiles: &[Tile]) -> Vec<(u8, u8, u32)> {
    let mut v: Vec<(u8, u8, u32)> = tiles.iter().map(|t| (t.position.x, t.position.y, t.value)).collect();
    v.sort();
    v
}

fn sum(tiles: &[Tile]) -> u32 {
    tiles.iter().map(|t| t.value).sum()
}

fn distinct_and_on_board(board: &Board, tiles: &[Tile]) -> bool {
    for (i, a) in tiles.iter().enumerate() {
        if a.position.x >= board.size || a.position.y >= board.size {
            return false;
        }
        for b in tiles.iter().skip(i + 1) {
            if a.position == b.position {
                return false;
            }
        }
    }
    true
}

#[test]
fn two_equal_tiles_merge_left() {
    let board = Board::new(4);
    let mut tiles = vec![tile(1, 0, 0, 2), tile(2, 1, 0, 2)];
    let out = board_shift(BoardShift::Left, &board, &mut tiles);
    assert_eq!(cells(&tiles), vec![(0, 0, 4)]);
    assert_eq!(tiles[0].id, 1);
    assert_eq!(out.score_delta, 4);
    assert_eq!(out.removed, vec![2]);
}

#[test]
fn different_values_stay_put() {
    let board = Board::new(4);
    let mut tiles = vec![tile(1, 0, 0, 2), tile(2, 1, 0, 4)];
    let out = board_shift(BoardShift::Left, &board, &mut tiles);
    assert_eq!(cells(&tiles), vec![(0, 0, 2), (1, 0, 4)]);
    assert_eq!(out.score_delta, 0);
    assert!(out.removed.is_empty());
}

#[test]
fn full_board_without_equal_neighbours_is_over() {
    let board = Board::new(4);
    let mut tiles = Vec::new();
    for x in 0..4u8 {
        for y in 0..4u8 {
            let value = if (x + y) % 2 == 0 { 2 } else { 4 };
            tiles.push(tile((x * 4 + y) as u64, x, y, value));
        }
    }
    assert!(is_game_over(&board, &tiles));
}

#[test]
fn full_board_with_equal_neighbours_is_not_over() {
    let board = Board::new(4);
    let mut tiles = Vec::new();
    for x in 0..4u8 {
        for y in 0..4u8 {
            let value = if (x + y) % 2 == 0 { 2 } else { 4 };
            tiles.push(tile((x * 4 + y) as u64, x, y, value));
        }
    }
    tiles[5].value = 8;
    tiles[6].value = 8;
    assert!(is_adjacent(&tiles[5].position, &tiles[6].position));
    assert!(!is_game_over(&board, &tiles));
}

#[test]
fn board_with_free_cell_is_not_over() {
    let board = Board::new(4);
    let mut tiles = Vec::new();
    for x in 0..4u8 {
        for y in 0..4u8 {
            if (x, y) != (3, 3) {
                let value = if (x + y) % 2 == 0 { 2 } else { 4 };
                tiles.push(tile((x * 4 + y) as u64, x, y, value));
            }
        }
    }
    assert!(!is_game_over(&board, &tiles));
    assert!(!is_game_over(&board, &[].to_vec()));
}

#[test]
fn three_equal_tiles_merge_once() {
    let board = Board::new(4);
    let mut tiles = vec![tile(1, 0, 0, 2), tile(2, 1, 0, 2), tile(3, 2, 0, 2)];
    let out = board_shift(BoardShift::Left, &board, &mut tiles);
    assert_eq!(cells(&tiles), vec![(0, 0, 4), (1, 0, 2)]);
    assert_eq!(out.score_delta, 4);
    assert_eq!(out.removed, vec![2]);
}

#[test]
fn four_equal_tiles_make_two_merges() {
    let board = Board::new(4);
    let mut tiles = vec![tile(4, 3, 1, 2), tile(2, 1, 1, 2), tile(1, 0, 1, 2), tile(3, 2, 1, 2)];
    let out = board_shift(BoardShift::Left, &board, &mut tiles);
    assert_eq!(cells(&tiles), vec![(0, 1, 4), (1, 1, 4)]);
    assert_eq!(out.score_delta, 8);
    assert_eq!(out.removed, vec![2, 4]);
}

#[test]
fn merge_toward_each_edge() {
    let board = Board::new(4);
    let start = vec![tile(1, 1, 1, 2), tile(2, 1, 2, 2), tile(3, 2, 1, 2)];
    let mut right = start.clone();
    board_shift(BoardShift::Right, &board, &mut right);
    assert_eq!(cells(&right), vec![(3, 1, 4), (3, 2, 2)]);
    let mut left = start.clone();
    board_shift(BoardShift::Left, &board, &mut left);
    assert_eq!(cells(&left), vec![(0, 1, 4), (0, 2, 2)]);
    let mut up = start.clone();
    board_shift(BoardShift::Up, &board, &mut up);
    assert_eq!(cells(&up), vec![(1, 3, 4), (2, 3, 2)]);
    let mut down = start.clone();
    board_shift(BoardShift::Down, &board, &mut down);
    assert_eq!(cells(&down), vec![(1, 0, 4), (2, 0, 2)]);
}

#[test]
fn right_merges_nearest_the_right_edge_first() {
    let board = Board::new(4);
    let mut tiles = vec![tile(1, 0, 0, 2), tile(2, 1, 0, 2), tile(3, 2, 0, 2)];
    board_shift(BoardShift::Right, &board, &mut tiles);
    assert_eq!(cells(&tiles), vec![(2, 0, 2), (3, 0, 4)]);
}

#[test]
fn shift_keeps_the_sum_of_values() {
    let board = Board::new(4);
    let mut tiles = vec![
        tile(1, 0, 0, 2),
        tile(2, 2, 0, 2),
        tile(3, 3, 0, 4),
        tile(4, 1, 2, 8),
        tile(5, 1, 3, 8),
        tile(6, 3, 3, 2),
    ];
    let before = sum(&tiles);
    for dir in [BoardShift::Up, BoardShift::Left, BoardShift::Down, BoardShift::Right] {
        board_shift(dir, &board, &mut tiles);
        assert_eq!(sum(&tiles), before);
        assert!(distinct_and_on_board(&board, &tiles));
    }
}

#[test]
fn settled_tiles_do_not_move() {
    let board = Board::new(4);
    let mut tiles = vec![tile(1, 0, 0, 2), tile(2, 1, 0, 4), tile(3, 0, 2, 8)];
    let before = cells(&tiles);
    let out = board_shift(BoardShift::Left, &board, &mut tiles);
    assert_eq!(cells(&tiles), before);
    assert_eq!(out.score_delta, 0);
    let out = board_shift(BoardShift::Left, &board, &mut tiles);
    assert_eq!(cells(&tiles), before);
    assert_eq!(out.score_delta, 0);
}

#[test]
fn empty_board_shift_is_a_no_op() {
    let board = Board::new(4);
    let mut tiles: Vec<Tile> = Vec::new();
    let out = board_shift(BoardShift::Down, &board, &mut tiles);
    assert!(tiles.is_empty());
    assert_eq!(out.score_delta, 0);
}

#[test]
fn comparator_orders_by_line_then_edge() {
    let a = Position { x: 0, y: 0 };
    let b = Position { x: 1, y: 0 };
    let c = Position { x: 0, y: 1 };
    assert_eq!(BoardShift::Left.sort(&a, &b), Ordering::Less);
    assert_eq!(BoardShift::Left.sort(&b, &c), Ordering::Less);
    assert_eq!(BoardShift::Right.sort(&a, &b), Ordering::Greater);
    assert_eq!(BoardShift::Right.sort(&c, &a), Ordering::Greater);
    assert_eq!(BoardShift::Up.sort(&a, &c), Ordering::Greater);
    assert_eq!(BoardShift::Up.sort(&b, &a), Ordering::Less);
    assert_eq!(BoardShift::Down.sort(&a, &c), Ordering::Less);
    assert_eq!(BoardShift::Down.sort(&a, &a), Ordering::Equal);
}

#[test]
fn column_position_counts_from_the_target_edge() {
    let mut p = Position { x: 2, y: 1 };
    BoardShift::Left.set_column_position(4, &mut p, 0);
    assert_eq!(p, Position { x: 0, y: 1 });
    BoardShift::Right.set_column_position(4, &mut p, 1);
    assert_eq!(p, Position { x: 2, y: 1 });
    BoardShift::Up.set_column_position(4, &mut p, 0);
    assert_eq!(p, Position { x: 2, y: 3 });
    BoardShift::Down.set_column_position(4, &mut p, 2);
    assert_eq!(p, Position { x: 2, y: 2 });
    assert_eq!(BoardShift::Left.get_row_position(&p), 2);
    assert_eq!(BoardShift::Right.get_row_position(&p), 2);
    assert_eq!(BoardShift::Up.get_row_position(&Position { x: 3, y: 1 }), 3);
    assert_eq!(BoardShift::Down.get_row_position(&Position { x: 3, y: 1 }), 3);
}

#[test]
fn free_cells_lists_every_empty_cell() {
    let board = Board::new(4);
    let empty: Vec<Tile> = Vec::new();
    assert_eq!(free_cells(&board, &empty).len(), 16);
    let tiles = vec![tile(1, 0, 0, 2), tile(2, 3, 2, 4)];
    let free = free_cells(&board, &tiles);
    assert_eq!(free.len(), 14);
    assert!(!free.contains(&Position { x: 3, y: 2 }));
    assert!(free.contains(&Position { x: 2, y: 3 }));
    assert!(is_occupied(&tiles, Position { x: 3, y: 2 }));
    assert!(!is_occupied(&tiles, Position { x: 2, y: 3 }));
}

#[test]
fn new_game_has_two_tiles_of_two() {
    let game = Game::new(Board::new(4));
    assert_eq!(game.tiles.len(), 2);
    assert!(game.tiles.iter().all(|t| t.value == 2));
    assert_ne!(game.tiles[0].position, game.tiles[1].position);
    assert!(distinct_and_on_board(&game.board, &game.tiles));
    assert_eq!(game.state, GameState::Playing);
    assert_eq!(game.score, Score { current: 0, best: 0 });
}

#[test]
fn spawn_fills_the_last_free_cell_then_stops() {
    let mut game = Game::new(Board::new(2));
    assert!(game.spawn_tile().is_some());
    let t = game.spawn_tile().expect("one cell is left");
    assert_eq!(t.value, 2);
    assert_eq!(game.tiles.len(), 4);
    assert!(distinct_and_on_board(&game.board, &game.tiles));
    assert!(game.spawn_tile().is_none());
    assert_eq!(game.tiles.len(), 4);
}

#[test]
fn place_tile_uses_the_given_cell() {
    let mut game = Game::new(Board::new(4));
    let free = free_cells(&game.board, &game.tiles);
    let id = game.next_id;
    let t = game.place_tile(free[0]);
    assert_eq!(t, Tile { id, position: free[0], value: 2 });
    assert_eq!(game.next_id, id + 1);
}

#[test]
fn turn_merges_scores_and_spawns() {
    let mut game = Game::new(Board::new(4));
    game.tiles = vec![tile(10, 0, 0, 2), tile(11, 3, 0, 2)];
    let out = game.turn(BoardShift::Left).expect("the game is on");
    assert_eq!(out.score_delta, 4);
    assert_eq!(out.removed, vec![11]);
    assert_eq!(game.score, Score { current: 4, best: 4 });
    assert_eq!(game.tiles.len(), 2);
    assert_eq!((game.tiles[0].position, game.tiles[0].value), (Position { x: 0, y: 0 }, 4));
    assert_eq!(game.tiles[1].value, 2);
    assert_eq!(sum(&game.tiles), 6);
    assert_eq!(total_value(&game.tiles), 6);
}

#[test]
fn best_score_never_decreases() {
    let mut game = Game::new(Board::new(4));
    let mut best = game.score.best;
    let dirs = [BoardShift::Left, BoardShift::Down, BoardShift::Right, BoardShift::Up];
    for k in 0..200 {
        game.turn(dirs[k % 4]);
        assert!(game.score.best >= best);
        assert!(game.score.best >= game.score.current);
        assert!(distinct_and_on_board(&game.board, &game.tiles));
        best = game.score.best;
        if game.state == GameState::GameOver {
            game.reset();
            assert_eq!(game.score.current, 0);
            assert_eq!(game.score.best, best);
            assert_eq!(game.tiles.len(), 2);
        }
    }
}

#[test]
fn finished_game_accepts_no_turn() {
    let mut game = Game::new(Board::new(2));
    game.tiles = vec![tile(1, 0, 0, 2), tile(2, 1, 0, 4), tile(3, 0, 1, 4), tile(4, 1, 1, 2)];
    game.state = GameState::GameOver;
    assert!(game.turn(BoardShift::Left).is_none());
    assert_eq!(game.tiles.len(), 4);
}

#[test]
fn turn_that_fills_the_board_can_end_the_game() {
    let mut game = Game::new(Board::new(2));
    game.tiles = vec![tile(1, 0, 0, 4), tile(2, 1, 0, 8), tile(3, 1, 1, 4)];
    game.turn(BoardShift::Left);
    assert_eq!(game.tiles.len(), 4);
    let free = (0..2u8)
        .flat_map(|x| (0..2u8).map(move |y| Position { x, y }))
        .find(|p| !game.tiles.iter().any(|t| t.position == *p));
    assert!(free.is_none());
    assert_eq!(game.state == GameState::GameOver, is_game_over(&game.board, &game.tiles));
}

#[test]
fn score_saturates_and_tracks_best() {
    let mut s = Score::new();
    s.apply(8);
    s.apply(4);
    assert_eq!(s, Score { current: 12, best: 12 });
    s.reset();
    assert_eq!(s, Score { current: 0, best: 12 });
    s.apply(4);
    assert_eq!(s, Score { current: 4, best: 12 });
    s.apply(u32::MAX);
    assert_eq!(s, Score { current: u32::MAX, best: u32::MAX });
}

#[test]
fn adjacency_is_along_rows_and_columns() {
    let p = Position { x: 1, y: 1 };
    assert!(is_adjacent(&p, &Position { x: 2, y: 1 }));
    assert!(is_adjacent(&p, &Position { x: 1, y: 0 }));
    assert!(!is_adjacent(&p, &Position { x: 2, y: 2 }));
    assert!(!is_adjacent(&p, &p));
    assert!(!is_adjacent(&Position { x: 255, y: 0 }, &Position { x: 0, y: 0 }));
}

#[test]
fn spawned_tiles_get_fresh_ids() {
    let mut game = Game::new(Board::new(4));
    let dirs = [BoardShift::Left, BoardShift::Up, BoardShift::Right, BoardShift::Down];
    for k in 0..60 {
        let before: Vec<u64> = game.tiles.iter().map(|t| t.id).collect();
        let next = game.next_id;
        game.turn(dirs[k % 4]);
        if game.next_id == next + 1 {
            let last = game.tiles[game.tiles.len() - 1];
            assert_eq!(last.id, next);
            assert!(!before.contains(&last.id));
        }
        let mut ids: Vec<u64> = game.tiles.iter().map(|t| t.id).collect();
        ids.sort();
        ids.dedup();
        assert_eq!(ids.len(), game.tiles.len());
        assert!(game.tiles.iter().all(|t| t.id < game.next_id));
        if game.state == GameState::GameOver {
            break;
        }
    }
}

#[test]
fn finished_board_is_unchanged_by_every_shift() {
    let board = Board::new(4);
    let mut tiles = Vec::new();
    for x in 0..4u8 {
        for y in 0..4u8 {
            let value = if (x + y) % 2 == 0 { 2 } else { 4 };
            tiles.push(tile((x * 4 + y) as u64, x, y, value));
        }
    }
    let before = cells(&tiles);
    for dir in [BoardShift::Left, BoardShift::Right, BoardShift::Up, BoardShift::Down] {
        let mut after = tiles.clone();
        let out = board_shift(dir, &board, &mut after);
        assert_eq!(cells(&after), before);
        assert_eq!(out.score_delta, 0);
        assert!(out.removed.is_empty());
    }
}
