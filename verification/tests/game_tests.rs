use twenty48::{game_reset, Board, BoardShift, Game, GameState, Position, RunState, Tile};

fn tile(id: u64, x: u8, y: u8, value: u64) -> Tile {
    Tile { id, pos: Position { x, y }, value }
}

#[test]
fn score_accumulates_and_best_tracks_the_high_water_mark() {
    let mut g = Game::new();
    g.apply_delta(4);
    assert_eq!(g.score, 4);
    assert_eq!(g.best_score, 4);
    g.apply_delta(8);
    assert_eq!(g.score, 12);
    assert_eq!(g.best_score, 12);
}

#[test]
fn reset_zeroes_the_score_and_keeps_the_best() {
    let mut g = Game::new();
    g.apply_delta(16);
    game_reset(&mut g);
    assert_eq!(g.score, 0);
    assert_eq!(g.best_score, 16);
    g.apply_delta(4);
    assert_eq!(g.score, 4);
    assert_eq!(g.best_score, 16);
}

#[test]
fn a_fresh_session_holds_two_base_tiles() {
    let s = GameState::new(4);
    assert_eq!(s.board.size, 4);
    assert_eq!(s.tiles.len(), 2);
    assert_ne!(s.tiles[0].pos, s.tiles[1].pos);
    for t in &s.tiles {
        assert_eq!(t.value, 2);
        assert!(t.pos.x < 4 && t.pos.y < 4);
    }
    assert_eq!(s.game.score, 0);
    assert_eq!(s.game.best_score, 0);
    assert_eq!(s.run_state, RunState::Playing);
}

#[test]
fn a_turn_with_a_merge_scores_and_spawns_one_tile() {
    let mut s = GameState::new(4);
    s.tiles = vec![tile(0, 0, 0, 2), tile(1, 1, 0, 2)];
    s.next_id = 2;
    let changed = s.board_shift(BoardShift::Left);
    assert!(changed);
    assert_eq!(s.game.score, 4);
    assert_eq!(s.game.best_score, 4);
    // the merged survivor plus exactly one freshly spawned base tile
    assert_eq!(s.tiles.len(), 2);
    assert!(s.tiles.contains(&tile(0, 0, 0, 4)));
    let fresh = s.tiles.iter().find(|t| t.id == 2).expect("spawned tile");
    assert_eq!(fresh.value, 2);
    assert_ne!(fresh.pos, Position { x: 0, y: 0 });
    assert_eq!(s.run_state, RunState::Playing);
}

#[test]
fn a_turn_that_moves_nothing_spawns_nothing() {
    let mut s = GameState::new(4);
    s.tiles = vec![tile(0, 0, 0, 2), tile(1, 1, 0, 4)];
    s.next_id = 2;
    let changed = s.board_shift(BoardShift::Left);
    assert!(!changed);
    assert_eq!(s.tiles.len(), 2);
    assert_eq!(s.game.score, 0);
    assert_eq!(s.run_state, RunState::Playing);
}

#[test]
fn a_blocked_full_board_ends_the_game() {
    let mut s = GameState::new(2);
    s.tiles = vec![
        tile(0, 0, 0, 2),
        tile(1, 0, 1, 4),
        tile(2, 1, 0, 4),
        tile(3, 1, 1, 2),
    ];
    s.next_id = 4;
    let changed = s.board_shift(BoardShift::Left);
    assert!(!changed);
    assert_eq!(s.run_state, RunState::GameOver);
}

#[test]
fn session_reset_respawns_and_keeps_the_best_score() {
    let mut s = GameState::new(4);
    s.tiles = vec![tile(0, 0, 0, 2), tile(1, 1, 0, 2)];
    s.next_id = 2;
    s.board_shift(BoardShift::Left);
    assert_eq!(s.game.score, 4);
    s.game_reset();
    assert_eq!(s.tiles.len(), 2);
    for t in &s.tiles {
        assert_eq!(t.value, 2);
    }
    assert_eq!(s.game.score, 0);
    assert_eq!(s.game.best_score, 4);
    assert_eq!(s.run_state, RunState::Playing);
}

#[test]
fn board_remembers_its_size() {
    let b = Board::new(4);
    assert_eq!(b.size, 4);
}
