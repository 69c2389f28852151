use mineswpr::board::Board;
use mineswpr::cursor::Cursor;
use mineswpr::point::Point;

#[test]
fn cursor_starts_at_the_origin_unlocked() {
    let b = Board::new(3, 4, 0);
    let c = Cursor::new(&b);
    assert_eq!(c.position, Point::new(0, 0));
    assert_eq!(c.max, Point::new(3, 4));
    assert!(!c.locked);
}

#[test]
fn cursor_moves_are_clamped_to_the_board() {
    let b = Board::new(3, 3, 0);
    let mut c = Cursor::new(&b);
    c.mut_move(-1, -1);
    assert_eq!(c.position, Point::new(0, 0));
    c.mut_move(1, 0);
    assert_eq!(c.position, Point::new(1, 0));
    c.mut_move(10, 10);
    assert_eq!(c.position, Point::new(2, 2));
    c.mut_move(0, -1);
    assert_eq!(c.position, Point::new(2, 1));
}

#[test]
fn locked_cursor_does_not_move() {
    let b = Board::new(3, 3, 0);
    let mut c = Cursor::new(&b);
    c.mut_move(1, 1);
    c.lock();
    c.mut_move(1, 1);
    assert_eq!(c.position, Point::new(1, 1));
    c.unlock();
    c.mut_move(1, 1);
    assert_eq!(c.position, Point::new(2, 2));
}

#[test]
fn cursor_on_a_single_cell_board_stays_put() {
    let b = Board::new(1, 1, 0);
    let mut c = Cursor::new(&b);
    c.mut_move(5, -7);
    assert_eq!(c.position, Point::new(0, 0));
}
