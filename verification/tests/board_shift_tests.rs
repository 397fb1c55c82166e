use std::cmp::Ordering;

use twenty48::{BoardShift, Position};

fn pos(x: u8, y: u8) -> Position {
    Position { x, y }
}

#[test]
fn sort_orders_left_by_row_then_column() {
    let d = BoardShift::Left;
    assert_eq!(d.sort(&pos(0, 0), &pos(0, 1)), Ordering::Less);
    assert_eq!(d.sort(&pos(0, 0), &pos(1, 0)), Ordering::Less);
    assert_eq!(d.sort(&pos(2, 0), &pos(1, 0)), Ordering::Greater);
    assert_eq!(d.sort(&pos(2, 1), &pos(2, 1)), Ordering::Equal);
}

#[test]
fn sort_orders_right_reversed() {
    let d = BoardShift::Right;
    assert_eq!(d.sort(&pos(0, 0), &pos(0, 1)), Ordering::Greater);
    assert_eq!(d.sort(&pos(3, 0), &pos(1, 0)), Ordering::Less);
    assert_eq!(d.sort(&pos(1, 2), &pos(1, 2)), Ordering::Equal);
}

#[test]
fn sort_orders_up_by_column_descending() {
    let d = BoardShift::Up;
    assert_eq!(d.sort(&pos(1, 0), &pos(0, 0)), Ordering::Less);
    assert_eq!(d.sort(&pos(0, 3), &pos(0, 1)), Ordering::Less);
    assert_eq!(d.sort(&pos(0, 1), &pos(0, 3)), Ordering::Greater);
}

#[test]
fn sort_orders_down_by_column_ascending() {
    let d = BoardShift::Down;
    assert_eq!(d.sort(&pos(0, 0), &pos(1, 0)), Ordering::Less);
    assert_eq!(d.sort(&pos(0, 1), &pos(0, 3)), Ordering::Less);
    assert_eq!(d.sort(&pos(0, 3), &pos(0, 1)), Ordering::Greater);
}

#[test]
fn set_column_position_packs_toward_each_edge() {
    let mut p = pos(2, 2);
    BoardShift::Up.set_column_position(4, &mut p, 0);
    assert_eq!(p, pos(2, 3));

    let mut p = pos(2, 2);
    BoardShift::Down.set_column_position(4, &mut p, 1);
    assert_eq!(p, pos(2, 1));

    let mut p = pos(2, 2);
    BoardShift::Left.set_column_position(4, &mut p, 0);
    assert_eq!(p, pos(0, 2));

    let mut p = pos(2, 2);
    BoardShift::Right.set_column_position(4, &mut p, 2);
    assert_eq!(p, pos(1, 2));
}

#[test]
fn get_row_position_reads_the_lane_coordinate() {
    let p = pos(1, 3);
    assert_eq!(BoardShift::Up.get_row_position(&p), 1);
    assert_eq!(BoardShift::Down.get_row_position(&p), 1);
    assert_eq!(BoardShift::Left.get_row_position(&p), 3);
    assert_eq!(BoardShift::Right.get_row_position(&p), 3);
}
