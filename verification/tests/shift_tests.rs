use twenty48::{board_shift, BoardShift, Position, Tile};

fn tile(id: u64, x: u8, y: u8, value: u64) -> Tile {
    Tile { id, pos: Position { x, y }, value }
}

fn total(tiles: &[Tile]) -> u64 {
    tiles.iter().map(|t| t.value).sum()
}

#[test]
fn merge_pair_left_awards_score() {
    let tiles = vec![tile(1, 0, 0, 2), tile(2, 1, 0, 2)];
    let out = board_shift(BoardShift::Left, &tiles, 4);
    assert_eq!(out.tiles.len(), 1);
    assert_eq!(out.tiles[0].pos, Position { x: 0, y: 0 });
    assert_eq!(out.tiles[0].value, 4);
    assert_eq!(out.tiles[0].id, 1);
    assert_eq!(out.removed, vec![2]);
    assert_eq!(out.score_delta, 4);
}

#[test]
fn different_values_do_not_merge() {
    let tiles = vec![tile(1, 0, 0, 2), tile(2, 1, 0, 4)];
    let out = board_shift(BoardShift::Left, &tiles, 4);
    assert_eq!(out.tiles.len(), 2);
    assert!(out.tiles.contains(&tile(1, 0, 0, 2)));
    assert!(out.tiles.contains(&tile(2, 1, 0, 4)));
    assert!(out.removed.is_empty());
    assert_eq!(out.score_delta, 0);
}

#[test]
fn lane_break_prevents_merge_on_vertical_shift() {
    // two equal tiles in different lanes of a vertical shift: lanes
    // are told apart by x, so these never merge, going Up or Down
    let tiles = vec![tile(1, 0, 0, 2), tile(2, 1, 0, 2)];
    let up = board_shift(BoardShift::Up, &tiles, 4);
    assert_eq!(up.tiles.len(), 2);
    assert!(up.tiles.contains(&tile(1, 0, 3, 2)));
    assert!(up.tiles.contains(&tile(2, 1, 3, 2)));
    assert!(up.removed.is_empty());
    assert_eq!(up.score_delta, 0);

    let down = board_shift(BoardShift::Down, &tiles, 4);
    assert_eq!(down.tiles.len(), 2);
    assert!(down.tiles.contains(&tile(1, 0, 0, 2)));
    assert!(down.tiles.contains(&tile(2, 1, 0, 2)));
    assert!(down.removed.is_empty());
    assert_eq!(down.score_delta, 0);
}

#[test]
fn merge_pair_right() {
    let tiles = vec![tile(1, 0, 0, 2), tile(2, 1, 0, 2)];
    let out = board_shift(BoardShift::Right, &tiles, 4);
    assert_eq!(out.tiles.len(), 1);
    assert_eq!(out.tiles[0].pos, Position { x: 3, y: 0 });
    assert_eq!(out.tiles[0].value, 4);
    assert_eq!(out.score_delta, 4);
}

#[test]
fn merge_pair_up() {
    let tiles = vec![tile(1, 0, 0, 2), tile(2, 0, 1, 2)];
    let out = board_shift(BoardShift::Up, &tiles, 4);
    assert_eq!(out.tiles.len(), 1);
    assert_eq!(out.tiles[0].pos, Position { x: 0, y: 3 });
    assert_eq!(out.tiles[0].value, 4);
    assert_eq!(out.score_delta, 4);
}

#[test]
fn merge_pair_down() {
    let tiles = vec![tile(1, 0, 2, 2), tile(2, 0, 3, 2)];
    let out = board_shift(BoardShift::Down, &tiles, 4);
    assert_eq!(out.tiles.len(), 1);
    assert_eq!(out.tiles[0].pos, Position { x: 0, y: 0 });
    assert_eq!(out.tiles[0].value, 4);
    assert_eq!(out.score_delta, 4);
}

#[test]
fn three_equal_tiles_merge_only_once() {
    // the tile nearest the edge merges with its follower; the third
    // survives un-merged: never a chain of three into one
    let tiles = vec![tile(1, 0, 0, 2), tile(2, 1, 0, 2), tile(3, 2, 0, 2)];
    let out = board_shift(BoardShift::Left, &tiles, 4);
    assert_eq!(out.tiles.len(), 2);
    assert!(out.tiles.contains(&tile(1, 0, 0, 4)));
    assert!(out.tiles.contains(&tile(3, 1, 0, 2)));
    assert_eq!(out.removed, vec![2]);
    assert_eq!(out.score_delta, 4);
}

#[test]
fn four_equal_tiles_merge_pairwise() {
    let tiles = vec![
        tile(1, 0, 0, 2),
        tile(2, 1, 0, 2),
        tile(3, 2, 0, 2),
        tile(4, 3, 0, 2),
    ];
    let out = board_shift(BoardShift::Left, &tiles, 4);
    assert_eq!(out.tiles.len(), 2);
    assert!(out.tiles.contains(&tile(1, 0, 0, 4)));
    assert!(out.tiles.contains(&tile(3, 1, 0, 4)));
    assert_eq!(out.removed.len(), 2);
    assert!(out.removed.contains(&2));
    assert!(out.removed.contains(&4));
    assert_eq!(out.score_delta, 8);
}

#[test]
fn merged_survivor_does_not_merge_again() {
    // 4 then 2, 2: the two 2s merge into a 4 beside the first 4, and
    // the fresh 4 must not cascade into the first in the same pass
    let tiles = vec![tile(1, 0, 0, 4), tile(2, 1, 0, 2), tile(3, 2, 0, 2)];
    let out = board_shift(BoardShift::Left, &tiles, 4);
    assert_eq!(out.tiles.len(), 2);
    assert!(out.tiles.contains(&tile(1, 0, 0, 4)));
    assert!(out.tiles.contains(&tile(2, 1, 0, 4)));
    assert_eq!(out.removed, vec![3]);
    assert_eq!(out.score_delta, 4);
}

#[test]
fn gap_closes_before_merging() {
    // equal tiles separated by a gap still collide and merge
    let tiles = vec![tile(1, 0, 0, 2), tile(2, 3, 0, 2)];
    let out = board_shift(BoardShift::Left, &tiles, 4);
    assert_eq!(out.tiles.len(), 1);
    assert_eq!(out.tiles[0], tile(1, 0, 0, 4));
    assert_eq!(out.score_delta, 4);
}

#[test]
fn shift_conserves_total_value() {
    let tiles = vec![
        tile(1, 0, 0, 2),
        tile(2, 1, 0, 2),
        tile(3, 3, 0, 8),
        tile(4, 2, 2, 4),
        tile(5, 2, 3, 4),
    ];
    let before = total(&tiles);
    for dir in [
        BoardShift::Up,
        BoardShift::Down,
        BoardShift::Left,
        BoardShift::Right,
    ] {
        let out = board_shift(dir, &tiles, 4);
        assert_eq!(total(&out.tiles), before);
    }
}

#[test]
fn no_two_tiles_share_a_cell_after_any_shift() {
    let tiles = vec![
        tile(1, 0, 0, 2),
        tile(2, 1, 0, 2),
        tile(3, 2, 0, 4),
        tile(4, 0, 1, 2),
        tile(5, 1, 3, 2),
        tile(6, 3, 3, 8),
    ];
    for dir in [
        BoardShift::Up,
        BoardShift::Down,
        BoardShift::Left,
        BoardShift::Right,
    ] {
        let out = board_shift(dir, &tiles, 4);
        for a in 0..out.tiles.len() {
            for b in (a + 1)..out.tiles.len() {
                assert_ne!(out.tiles[a].pos, out.tiles[b].pos);
            }
        }
        for t in &out.tiles {
            assert!(t.value >= 2 && t.value.is_power_of_two());
        }
    }
}

#[test]
fn packed_lane_without_merges_is_a_noop() {
    let tiles = vec![
        tile(1, 0, 0, 2),
        tile(2, 1, 0, 4),
        tile(3, 2, 0, 2),
        tile(4, 3, 0, 4),
    ];
    let out = board_shift(BoardShift::Left, &tiles, 4);
    assert_eq!(out.tiles.len(), 4);
    for t in &tiles {
        assert!(out.tiles.contains(t));
    }
    assert!(out.removed.is_empty());
    assert_eq!(out.score_delta, 0);
}

#[test]
fn asymmetric_lanes_resolve_independently() {
    // one lane merges, the neighboring lane only slides
    let tiles = vec![
        tile(1, 0, 0, 2),
        tile(2, 0, 3, 2),
        tile(3, 1, 1, 4),
    ];
    let out = board_shift(BoardShift::Up, &tiles, 4);
    assert_eq!(out.tiles.len(), 2);
    assert!(out.tiles.contains(&tile(2, 0, 3, 4)));
    assert!(out.tiles.contains(&tile(3, 1, 3, 4)));
    assert_eq!(out.removed, vec![1]);
    assert_eq!(out.score_delta, 4);
}

#[test]
fn merging_fours_scores_eight() {
    let tiles = vec![tile(1, 0, 0, 4), tile(2, 1, 0, 4)];
    let out = board_shift(BoardShift::Left, &tiles, 4);
    assert_eq!(out.tiles[0].value, 8);
    assert_eq!(out.score_delta, 8);
}

#[test]
fn largest_board_still_resolves() {
    let tiles = vec![tile(1, 254, 7, 2), tile(2, 9, 7, 2), tile(3, 0, 0, 8)];
    let out = board_shift(BoardShift::Right, &tiles, 255);
    assert_eq!(out.tiles.len(), 2);
    assert!(out.tiles.contains(&tile(1, 254, 7, 4)));
    assert!(out.tiles.contains(&tile(3, 254, 0, 8)));
    assert_eq!(out.removed, vec![2]);
    assert_eq!(out.score_delta, 4);
}

#[test]
fn empty_store_shifts_to_empty() {
    let tiles: Vec<Tile> = Vec::new();
    let out = board_shift(BoardShift::Down, &tiles, 4);
    assert!(out.tiles.is_empty());
    assert!(out.removed.is_empty());
    assert_eq!(out.score_delta, 0);
}
