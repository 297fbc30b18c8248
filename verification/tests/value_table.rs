use rl_tic_tac_toe::game::{Board, Cell};
use rl_tic_tac_toe::table::{TableError, ValueTable};
use rl_tic_tac_toe::value::{td_update, HALF, SCALE};

#[test]
fn new_table_is_empty() {
    let t = ValueTable::new();
    assert_eq!(t.len(), 0);
    assert!(t.entries().is_empty());
}

#[test]
fn get_or_init_stores_the_default_once() {
    let mut t = ValueTable::new();
    let b = Board::new();
    assert_eq!(t.get_or_init(&b, HALF), HALF);
    assert_eq!(t.len(), 1);
    // a second access returns the stored value and adds nothing
    assert_eq!(t.get_or_init(&b, 0), HALF);
    assert_eq!(t.len(), 1);
    assert!(t.contains(&b));
}

#[test]
fn set_overwrites_a_present_entry() {
    let mut t = ValueTable::new();
    let b = Board::new();
    t.get_or_init(&b, HALF);
    assert_eq!(t.set(&b, 750000), Ok(()));
    assert_eq!(t.lookup(&b), Some(750000));
    assert_eq!(t.len(), 1);
}

#[test]
fn set_on_an_absent_entry_is_refused() {
    let mut t = ValueTable::new();
    let b = Board::new();
    assert_eq!(t.set(&b, HALF), Err(TableError::MissingEntry));
    assert_eq!(t.len(), 0);
}

#[test]
fn entries_keep_insertion_order() {
    let mut t = ValueTable::new();
    let b1 = Board::new();
    let mut b2 = Board::new();
    b2.set_cell(0, 0, Cell::X);
    t.get_or_init(&b1, HALF);
    t.get_or_init(&b2, SCALE);
    let entries = t.entries();
    assert_eq!(entries.len(), 2);
    assert_eq!(entries[0], (b1, HALF));
    assert_eq!(entries[1], (b2, SCALE));
}

#[test]
fn td_update_moves_half_a_tenth_toward_one() {
    // 0.5 + 0.1 * (1.0 - 0.5) = 0.55
    assert_eq!(td_update(HALF, SCALE, 100000), 550000);
}

#[test]
fn td_update_moves_down_toward_a_worse_successor() {
    // 0.5 + 0.1 * (0.0 - 0.5) = 0.45
    assert_eq!(td_update(HALF, 0, 100000), 450000);
}

#[test]
fn td_update_on_equal_estimates_changes_nothing() {
    assert_eq!(td_update(HALF, HALF, 100000), HALF);
    assert_eq!(td_update(SCALE, SCALE, SCALE), SCALE);
    assert_eq!(td_update(0, 0, 1), 0);
}

#[test]
fn td_update_never_leaves_the_unit_interval() {
    assert_eq!(td_update(0, SCALE, SCALE), SCALE);
    assert_eq!(td_update(SCALE, 0, SCALE), 0);
    assert!(td_update(999999, SCALE, SCALE) <= SCALE);
}
