use mineswpr::tile::{OpenError, State, Tile, Value};

#[test]
fn default_tile_is_closed_zero() {
    let t = Tile::default();
    assert_eq!(t.value(), Value::Number(0));
    assert_eq!(t.state(), State::Closed);
}

#[test]
fn open_closed_number_tile_succeeds() {
    let mut t = Tile::default();
    assert!(t.open().is_ok());
    assert_eq!(t.state(), State::Opened);
    assert_eq!(t.value(), Value::Number(0));
}

#[test]
fn open_mine_fails_and_keeps_state() {
    let mut t = Tile::default();
    t.replace_value(Value::Mine);
    assert_eq!(t.open(), Err(OpenError::Mine));
    assert_eq!(t.state(), State::Closed);
    assert_eq!(t.value(), Value::Mine);
}

#[test]
fn open_flagged_tile_fails() {
    let mut t = Tile::default();
    t.flag();
    assert_eq!(t.open(), Err(OpenError::Flagged));
    assert_eq!(t.state(), State::Flagged);
}

#[test]
fn reopen_is_rejected() {
    let mut t = Tile::default();
    assert!(t.open().is_ok());
    assert_eq!(t.open(), Err(OpenError::Opened));
    assert_eq!(t.state(), State::Opened);
}

#[test]
fn flag_toggles_and_is_its_own_inverse() {
    let mut t = Tile::default();
    t.flag();
    assert_eq!(t.state(), State::Flagged);
    assert_eq!(t.value(), Value::Number(0));
    t.flag();
    assert_eq!(t.state(), State::Closed);
    assert_eq!(t.value(), Value::Number(0));
}

#[test]
fn flag_on_opened_tile_is_a_no_op() {
    let mut t = Tile::default();
    assert!(t.open().is_ok());
    t.flag();
    assert_eq!(t.state(), State::Opened);
    t.flag();
    assert_eq!(t.state(), State::Opened);
}

#[test]
fn replace_value_keeps_state() {
    let mut t = Tile::default();
    t.flag();
    t.replace_value(Value::Number(5));
    assert_eq!(t.value(), Value::Number(5));
    assert_eq!(t.state(), State::Flagged);
}
