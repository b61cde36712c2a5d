use habit_tracker::event::Direction;
use habit_tracker::grid::{Extent, GridLayout, Offset};

fn grid(grid_width: usize) -> GridLayout {
    GridLayout::new(25, 8, grid_width).unwrap()
}

#[test]
fn down_moves_by_a_row_and_stops_at_the_last_habit() {
    let grid = grid(3);
    let first = grid.move_focus(0, 7, Direction::Down);
    assert_eq!(first, 3);
    let second = grid.move_focus(first, 7, Direction::Down);
    assert_eq!(second, 6);
    let third = grid.move_focus(second, 7, Direction::Down);
    assert_eq!(third, 6);
}

#[test]
fn down_goes_to_the_last_habit_where_a_row_would_reach_it() {
    // 1 + 3 is not before the last place, 4, so the focus goes there anyway
    assert_eq!(grid(3).move_focus(1, 5, Direction::Down), 4);
    // 0 + 3 is before the last place
    assert_eq!(grid(3).move_focus(0, 5, Direction::Down), 3);
    assert_eq!(grid(3).move_focus(3, 5, Direction::Down), 4);
}

#[test]
fn up_moves_by_a_row_and_stops_at_the_first_habit() {
    assert_eq!(grid(3).move_focus(6, 7, Direction::Up), 3);
    assert_eq!(grid(3).move_focus(3, 7, Direction::Up), 0);
    assert_eq!(grid(3).move_focus(2, 7, Direction::Up), 0);
    assert_eq!(grid(3).move_focus(0, 7, Direction::Up), 0);
}

#[test]
fn left_and_right_move_by_one_and_stop_at_the_ends() {
    assert_eq!(grid(3).move_focus(0, 7, Direction::Right), 1);
    assert_eq!(grid(3).move_focus(5, 7, Direction::Right), 6);
    assert_eq!(grid(3).move_focus(6, 7, Direction::Right), 6);
    assert_eq!(grid(3).move_focus(6, 7, Direction::Left), 5);
    assert_eq!(grid(3).move_focus(1, 7, Direction::Left), 0);
    assert_eq!(grid(3).move_focus(0, 7, Direction::Left), 0);
}

#[test]
fn the_focus_rests_at_the_edges() {
    for count in 1usize..20 {
        for width in 1usize..6 {
            assert_eq!(grid(width).move_focus(0, count, Direction::Up), 0);
            assert_eq!(grid(width).move_focus(count - 1, count, Direction::Down), count - 1);
        }
    }
}

#[test]
fn the_focus_stays_on_a_habit_whatever_the_moves() {
    let moves = [
        Direction::Down,
        Direction::Right,
        Direction::Right,
        Direction::Down,
        Direction::Down,
        Direction::Left,
        Direction::Up,
        Direction::Right,
        Direction::Down,
        Direction::Up,
        Direction::Up,
        Direction::Up,
        Direction::Left,
        Direction::Left,
    ];
    for count in 1usize..12 {
        for width in 1usize..5 {
            for start in 0..count {
                let mut focus = start;
                for direction in moves {
                    focus = grid(width).move_focus(focus, count, direction);
                    assert!(focus < count);
                }
            }
        }
    }
}

#[test]
fn the_focus_stays_where_there_is_no_habit() {
    for direction in [Direction::Left, Direction::Right, Direction::Up, Direction::Down] {
        assert_eq!(grid(3).move_focus(0, 0, direction), 0);
    }
}

#[test]
fn a_large_grid_width_does_not_overflow() {
    let wide = GridLayout::new(1, 1, usize::MAX).unwrap();
    assert_eq!(wide.move_focus(2, 5, Direction::Down), 4);
    assert_eq!(wide.move_focus(2, 5, Direction::Up), 0);
}

#[test]
fn no_habits_need_no_room() {
    for grid_width in [1usize, 2, 3, 7, 1000, usize::MAX] {
        let grid = GridLayout::new(25, 8, grid_width).unwrap();
        assert_eq!(grid.required_size(0), Some(Extent { width: 0, height: 0 }));
    }
}

#[test]
fn habits_need_full_rows() {
    assert_eq!(grid(3).required_size(7), Some(Extent { width: 75, height: 24 }));
    assert_eq!(grid(3).required_size(6), Some(Extent { width: 75, height: 16 }));
    assert_eq!(grid(3).required_size(4), Some(Extent { width: 75, height: 16 }));
    assert_eq!(grid(3).required_size(3), Some(Extent { width: 75, height: 8 }));
    assert_eq!(grid(3).required_size(1), Some(Extent { width: 75, height: 8 }));
    assert_eq!(grid(1).required_size(5), Some(Extent { width: 25, height: 40 }));
}

#[test]
fn room_beyond_the_machine_is_no_room() {
    let wide = GridLayout::new(usize::MAX, 1, 2).unwrap();
    assert_eq!(wide.required_size(1), None);
    let high = GridLayout::new(1, usize::MAX, 1).unwrap();
    assert_eq!(high.required_size(1), Some(Extent { width: 1, height: usize::MAX }));
    assert_eq!(high.required_size(2), None);
    assert_eq!(high.offset_of(0), Some(Offset { x: 0, y: 0 }));
    assert_eq!(high.offset_of(2), None);
}

#[test]
fn offsets_go_row_by_row() {
    assert_eq!(grid(3).offset_of(0), Some(Offset { x: 0, y: 0 }));
    assert_eq!(grid(3).offset_of(1), Some(Offset { x: 25, y: 0 }));
    assert_eq!(grid(3).offset_of(2), Some(Offset { x: 50, y: 0 }));
    assert_eq!(grid(3).offset_of(3), Some(Offset { x: 0, y: 8 }));
    assert_eq!(grid(3).offset_of(4), Some(Offset { x: 25, y: 8 }));
    assert_eq!(grid(3).offset_of(6), Some(Offset { x: 0, y: 16 }));
}

#[test]
fn a_row_holds_at_least_one_habit() {
    assert!(GridLayout::new(25, 8, 0).is_none());
    let narrow = GridLayout::new(25, 8, 1).unwrap();
    assert_eq!(narrow.grid_width(), 1);
    assert_eq!(narrow.cell_width(), 25);
    assert_eq!(narrow.cell_height(), 8);
}

#[test]
fn the_default_layout_has_three_habits_in_a_row() {
    let layout = GridLayout::default();
    assert_eq!(layout.grid_width(), 3);
    assert_eq!(layout.cell_width(), 25);
    assert_eq!(layout.cell_height(), 8);
}

#[test]
fn the_status_line_is_above_the_last_row() {
    assert_eq!(Extent { width: 75, height: 24 }.status_row(), Some(22));
    assert_eq!(Extent { width: 75, height: 2 }.status_row(), Some(0));
    assert_eq!(Extent { width: 75, height: 1 }.status_row(), None);
    assert_eq!(Extent { width: 0, height: 0 }.status_row(), None);
}
