use twenty48::{empty_cells, new_tile_handler, spawn_tile, spawn_tiles, Position, Tile};

fn tile(id: u64, x: u8, y: u8, value: u64) -> Tile {
    Tile { id, pos: Position { x, y }, value }
}

#[test]
fn empty_cells_lists_each_free_cell_once() {
    let tiles = vec![tile(1, 0, 0, 2), tile(2, 1, 1, 4)];
    let cells = empty_cells(&tiles, 2);
    assert_eq!(cells.len(), 2);
    assert!(cells.contains(&Position { x: 0, y: 1 }));
    assert!(cells.contains(&Position { x: 1, y: 0 }));
}

#[test]
fn empty_cells_of_a_bare_board_cover_the_grid() {
    let tiles: Vec<Tile> = Vec::new();
    let cells = empty_cells(&tiles, 2);
    assert_eq!(cells.len(), 4);
    for x in 0..2u8 {
        for y in 0..2u8 {
            assert!(cells.contains(&Position { x, y }));
        }
    }
}

#[test]
fn new_tile_handler_takes_the_single_free_cell() {
    // with exactly one empty cell the random choice has no freedom:
    // the handler must hand back that very cell
    let tiles = vec![tile(1, 0, 0, 2), tile(2, 0, 1, 4), tile(3, 1, 0, 8)];
    let picked = new_tile_handler(&tiles, 2);
    assert_eq!(picked, Some(Position { x: 1, y: 1 }));
}

#[test]
fn new_tile_handler_on_a_full_board_finds_nothing() {
    let tiles = vec![
        tile(1, 0, 0, 2),
        tile(2, 0, 1, 4),
        tile(3, 1, 0, 8),
        tile(4, 1, 1, 16),
    ];
    assert_eq!(new_tile_handler(&tiles, 2), None);
}

#[test]
fn new_tile_handler_picks_an_unoccupied_cell() {
    let tiles = vec![tile(1, 0, 0, 2)];
    let picked = new_tile_handler(&tiles, 4).expect("free cells exist");
    assert!(picked.x < 4 && picked.y < 4);
    assert_ne!(picked, Position { x: 0, y: 0 });
}

#[test]
fn spawn_tiles_starts_with_two_distinct_cells() {
    for _ in 0..20 {
        let cells = spawn_tiles(4);
        assert_eq!(cells.len(), 2);
        assert_ne!(cells[0], cells[1]);
        for c in &cells {
            assert!(c.x < 4 && c.y < 4);
        }
    }
}

#[test]
fn spawn_tile_carries_the_base_value() {
    let t = spawn_tile(7, Position { x: 2, y: 3 });
    assert_eq!(t.id, 7);
    assert_eq!(t.pos, Position { x: 2, y: 3 });
    assert_eq!(t.value, 2);
}
