use twenty48::{end_game, Position, Tile};

fn tile(id: u64, x: u8, y: u8, value: u64) -> Tile {
    Tile { id, pos: Position { x, y }, value }
}

#[test]
fn full_board_with_no_equal_neighbors_is_over() {
    let tiles = vec![
        tile(1, 0, 0, 2),
        tile(2, 0, 1, 4),
        tile(3, 1, 0, 4),
        tile(4, 1, 1, 2),
    ];
    assert!(end_game(&tiles, 2));
}

#[test]
fn full_board_with_equal_neighbors_is_not_over() {
    let tiles = vec![
        tile(1, 0, 0, 2),
        tile(2, 0, 1, 2),
        tile(3, 1, 0, 4),
        tile(4, 1, 1, 4),
    ];
    assert!(!end_game(&tiles, 2));
}

#[test]
fn board_that_is_not_full_is_never_over() {
    let tiles = vec![tile(1, 0, 0, 2), tile(2, 0, 1, 4), tile(3, 1, 0, 4)];
    assert!(!end_game(&tiles, 2));
}

#[test]
fn equal_tiles_on_a_diagonal_do_not_count_as_neighbors() {
    let tiles = vec![
        tile(1, 0, 0, 2),
        tile(2, 0, 1, 4),
        tile(3, 1, 0, 8),
        tile(4, 1, 1, 2),
    ];
    assert!(end_game(&tiles, 2));
}

#[test]
fn full_larger_board_with_one_merge_left_is_not_over() {
    let mut tiles = Vec::new();
    let mut id = 0u64;
    let values = [
        [2u64, 4, 2, 4],
        [4, 2, 4, 2],
        [2, 4, 2, 4],
        [4, 2, 4, 4],
    ];
    for x in 0..4u8 {
        for y in 0..4u8 {
            id += 1;
            tiles.push(tile(id, x, y, values[x as usize][y as usize]));
        }
    }
    assert!(!end_game(&tiles, 4));
}
