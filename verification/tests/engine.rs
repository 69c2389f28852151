use mineswpr::board::Board;
use mineswpr::point::Point;
use mineswpr::tile::{OpenError, State, Value};

fn count_mines(b: &Board) -> usize {
    let mut n = 0;
    for row in b.tiles.iter() {
        for t in row.iter() {
            if t.value() == Value::Mine {
                n += 1;
            }
        }
    }
    n
}

/// Recompute every cell's adjacency number from the mine layout alone.
fn check_numbers(b: &Board) {
    for y in 0..b.height {
        for x in 0..b.width {
            if b.tiles[y][x].value() == Value::Mine {
                continue;
            }
            let mut n = 0;
            for q in Point::new(x, y).neighbors() {
                if q.x < b.width && q.y < b.height && b.tiles[q.y][q.x].value() == Value::Mine {
                    n += 1;
                }
            }
            assert_eq!(b.tiles[y][x].value(), Value::Number(n));
        }
    }
}

fn all_closed(b: &Board) -> bool {
    b.tiles.iter().all(|row| row.iter().all(|t| t.state() == State::Closed))
}

#[test]
fn new_board_has_exactly_the_requested_mines() {
    let b = Board::new(8, 8, 10);
    assert_eq!(b.width, 8);
    assert_eq!(b.height, 8);
    assert_eq!(b.mine_count, 10);
    assert_eq!(count_mines(&b), 10);
    assert!(all_closed(&b));
    check_numbers(&b);
}

#[test]
fn new_board_without_mines() {
    let b = Board::new(3, 2, 0);
    assert_eq!(count_mines(&b), 0);
    check_numbers(&b);
}

#[test]
fn new_board_with_all_but_one_cell_mined() {
    let b = Board::new(3, 3, 8);
    assert_eq!(count_mines(&b), 8);
    check_numbers(&b);
}

#[test]
fn with_mines_places_mines_exactly_where_asked() {
    let mines = vec![Point::new(0, 0), Point::new(2, 2)];
    let b = Board::with_mines(3, 3, &mines);
    assert_eq!(b.mine_count, 2);
    assert_eq!(b.tiles[0][0].value(), Value::Mine);
    assert_eq!(b.tiles[2][2].value(), Value::Mine);
    assert_eq!(count_mines(&b), 2);
    assert!(all_closed(&b));
    check_numbers(&b);
}

#[test]
fn forced_layout_has_the_expected_numbers() {
    let mines = vec![Point::new(0, 0), Point::new(2, 2)];
    let mut b = Board::with_mines(3, 3, &mines);
    assert_eq!(b.open_tile(&Point::new(1, 0)), Ok(()));
    assert_eq!(b.tiles[0][1].value(), Value::Number(1));
    assert_eq!(b.open_tile(&Point::new(1, 1)), Ok(()));
    assert_eq!(b.tiles[1][1].value(), Value::Number(2));
    // (0, 2) touches neither mine, so it shows zero and cascades; the
    // cascade stops at the cells beside the second mine, which show 1.
    assert_eq!(b.open_tile(&Point::new(0, 2)), Ok(()));
    assert_eq!(b.tiles[2][0].value(), Value::Number(0));
    assert_eq!(b.tiles[2][1].value(), Value::Number(1));
    assert_eq!(b.tiles[2][1].state(), State::Opened);
}

#[test]
fn opening_a_mine_fails_and_changes_nothing() {
    let mines = vec![Point::new(0, 0), Point::new(2, 2)];
    let mut b = Board::with_mines(3, 3, &mines);
    assert_eq!(b.open_tile(&Point::new(1, 1)), Ok(()));
    assert_eq!(b.open_tile(&Point::new(0, 0)), Err(OpenError::Mine));
    assert_eq!(b.tiles[0][0].state(), State::Closed);
    assert_eq!(b.tiles[1][1].state(), State::Opened);
    for (x, y) in [(1usize, 0usize), (2, 0), (0, 1), (2, 1), (0, 2), (1, 2), (2, 2)] {
        assert_eq!(b.tiles[y][x].state(), State::Closed);
    }
}

#[test]
fn opening_a_flagged_tile_is_rejected() {
    let mines = vec![Point::new(0, 0)];
    let mut b = Board::with_mines(3, 3, &mines);
    b.toggle_flag(&Point::new(1, 1));
    assert_eq!(b.open_tile(&Point::new(1, 1)), Err(OpenError::Flagged));
    assert_eq!(b.tiles[1][1].state(), State::Flagged);
}

#[test]
fn board_flag_toggle_is_its_own_inverse() {
    let mines = vec![Point::new(0, 0)];
    let mut b = Board::with_mines(3, 3, &mines);
    b.toggle_flag(&Point::new(2, 1));
    assert_eq!(b.tiles[1][2].state(), State::Flagged);
    b.toggle_flag(&Point::new(2, 1));
    assert_eq!(b.tiles[1][2].state(), State::Closed);
    // No other cell was touched either time.
    for y in 0..3 {
        for x in 0..3 {
            assert_eq!(b.tiles[y][x].state(), State::Closed);
        }
    }
    // Toggling an opened tile is a no-op.
    assert_eq!(b.open_tile(&Point::new(1, 1)), Ok(()));
    b.toggle_flag(&Point::new(1, 1));
    assert_eq!(b.tiles[1][1].state(), State::Opened);
}

#[test]
fn reopening_a_tile_is_rejected() {
    let mines = vec![Point::new(0, 0)];
    let mut b = Board::with_mines(3, 3, &mines);
    assert_eq!(b.open_tile(&Point::new(1, 1)), Ok(()));
    assert_eq!(b.open_tile(&Point::new(1, 1)), Err(OpenError::Opened));
    assert_eq!(b.tiles[1][1].state(), State::Opened);
}

#[test]
fn zero_reveal_cascades_to_the_numbered_boundary() {
    // One mine in a corner of a 3x3 grid: every other cell is connected to
    // the opened zero cell, so everything but the mine opens.
    let mines = vec![Point::new(0, 0)];
    let mut b = Board::with_mines(3, 3, &mines);
    assert_eq!(b.open_tile(&Point::new(2, 2)), Ok(()));
    for y in 0..3 {
        for x in 0..3 {
            if x == 0 && y == 0 {
                assert_eq!(b.tiles[y][x].state(), State::Closed);
            } else {
                assert_eq!(b.tiles[y][x].state(), State::Opened);
            }
        }
    }
    assert!(b.has_won());
}

#[test]
fn cascade_stops_at_a_wall_of_numbers() {
    // A single mine in the middle of a 5x1 strip splits it: opening the
    // left end opens the two left cells only.
    let mines = vec![Point::new(2, 0)];
    let mut b = Board::with_mines(5, 1, &mines);
    assert_eq!(b.open_tile(&Point::new(0, 0)), Ok(()));
    assert_eq!(b.tiles[0][0].state(), State::Opened);
    assert_eq!(b.tiles[0][1].state(), State::Opened);
    assert_eq!(b.tiles[0][2].state(), State::Closed);
    assert_eq!(b.tiles[0][3].state(), State::Closed);
    assert_eq!(b.tiles[0][4].state(), State::Closed);
    assert!(!b.has_won());
}

#[test]
fn flagged_tile_blocks_the_cascade_through_it() {
    let mines = vec![Point::new(0, 0)];
    let mut b = Board::with_mines(3, 3, &mines);
    b.toggle_flag(&Point::new(2, 1));
    assert_eq!(b.open_tile(&Point::new(2, 2)), Ok(()));
    assert_eq!(b.tiles[1][2].state(), State::Flagged);
    // Reachable around the flag:
    assert_eq!(b.tiles[2][2].state(), State::Opened);
    assert_eq!(b.tiles[2][1].state(), State::Opened);
    assert_eq!(b.tiles[2][0].state(), State::Opened);
    assert_eq!(b.tiles[1][1].state(), State::Opened);
    assert_eq!(b.tiles[1][0].state(), State::Opened);
    // Only reachable through the flagged cell:
    assert_eq!(b.tiles[0][2].state(), State::Closed);
    assert_eq!(b.tiles[0][1].state(), State::Closed);
    assert!(!b.has_won());
}

#[test]
fn opening_a_numbered_tile_opens_it_alone() {
    let mines = vec![Point::new(0, 0)];
    let mut b = Board::with_mines(3, 3, &mines);
    assert_eq!(b.open_tile(&Point::new(1, 0)), Ok(()));
    assert_eq!(b.tiles[0][1].state(), State::Opened);
    for (x, y) in [(2usize, 0usize), (0, 1), (1, 1), (2, 1), (0, 2), (1, 2), (2, 2)] {
        assert_eq!(b.tiles[y][x].state(), State::Closed);
    }
}

#[test]
fn winning_needs_every_non_mine_tile_opened_and_nothing_else() {
    // The mine is the sole cell never touched; opening every other cell
    // wins, whatever the mine's state.
    let mines = vec![Point::new(0, 0)];
    let mut b = Board::with_mines(2, 1, &mines);
    assert!(!b.has_won());
    assert_eq!(b.open_tile(&Point::new(1, 0)), Ok(()));
    assert!(b.has_won());
    // Flagging or unflagging the mine does not change the verdict.
    b.tile_at(&Point::new(0, 0)).flag();
    assert!(b.has_won());
    b.tile_at(&Point::new(0, 0)).flag();
    assert!(b.has_won());
}

#[test]
fn not_won_while_a_safe_tile_is_closed() {
    let mines = vec![Point::new(0, 0)];
    let mut b = Board::with_mines(3, 1, &mines);
    assert_eq!(b.open_tile(&Point::new(1, 0)), Ok(()));
    assert!(!b.has_won());
    assert_eq!(b.open_tile(&Point::new(2, 0)), Ok(()));
    assert!(b.has_won());
}

#[test]
fn restart_resets_states_and_keeps_the_shape() {
    let mut b = Board::new(4, 5, 6);
    // Open some safe cell first so that there is something to reset.
    'outer: for y in 0..5 {
        for x in 0..4 {
            if b.tiles[y][x].value() != Value::Mine {
                assert_eq!(b.open_tile(&Point::new(x, y)), Ok(()));
                break 'outer;
            }
        }
    }
    b.restart();
    assert_eq!(b.width, 4);
    assert_eq!(b.height, 5);
    assert_eq!(b.mine_count, 6);
    assert_eq!(count_mines(&b), 6);
    assert!(all_closed(&b));
    check_numbers(&b);
}

#[test]
fn tile_at_reaches_the_addressed_cell() {
    let mines = vec![Point::new(1, 2)];
    let mut b = Board::with_mines(3, 4, &mines);
    assert_eq!(b.tile_at(&Point::new(1, 2)).value(), Value::Mine);
    assert_eq!(b.tile_at(&Point::new(0, 0)).value(), Value::Number(0));
    b.tile_at(&Point::new(2, 3)).flag();
    assert_eq!(b.tiles[3][2].state(), State::Flagged);
}
