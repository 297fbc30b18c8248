use rl_tic_tac_toe::game::{Board, Cell, PlayerId};

fn full_drawn_board() -> Board {
    // X O X
    // X O O
    // O X X
    Board::from_cells([
        Cell::X,
        Cell::O,
        Cell::X,
        Cell::X,
        Cell::O,
        Cell::O,
        Cell::O,
        Cell::X,
        Cell::X,
    ])
}

#[test]
fn new_board_is_empty() {
    let b = Board::new();
    for row in 0..3 {
        for col in 0..3 {
            assert_eq!(b.get(row, col), Cell::Nil);
            assert!(b.is_nil(row, col));
        }
    }
}

#[test]
fn set_cell_writes_one_cell() {
    let mut b = Board::new();
    b.set_cell(1, 2, Cell::X);
    assert_eq!(b.get(1, 2), Cell::X);
    assert!(!b.is_nil(1, 2));
    assert!(b.is_nil(0, 0));
    assert_eq!(b.as_array()[1 * 3 + 2], Cell::X);
}

#[test]
fn available_choices_on_empty_board_is_all_nine_in_row_major_order() {
    let b = Board::new();
    let choices = b.available_choices();
    assert_eq!(
        choices,
        vec![
            (0, 0),
            (0, 1),
            (0, 2),
            (1, 0),
            (1, 1),
            (1, 2),
            (2, 0),
            (2, 1),
            (2, 2),
        ]
    );
}

#[test]
fn available_choices_on_full_board_is_empty() {
    let b = full_drawn_board();
    assert_eq!(b.available_choices(), vec![]);
}

#[test]
fn full_unwon_board_is_drawn() {
    let b = full_drawn_board();
    assert_eq!(b.is_won(), None);
    assert!(b.is_drawn());
}

#[test]
fn partial_board_is_not_drawn() {
    let mut b = Board::new();
    b.set_cell(0, 0, Cell::X);
    assert!(!b.is_drawn());
}

#[test]
fn row_of_x_wins_for_p1() {
    let mut b = Board::new();
    b.set_cell(0, 0, Cell::X);
    b.set_cell(0, 1, Cell::X);
    b.set_cell(0, 2, Cell::X);
    assert_eq!(b.is_won(), Some(PlayerId::P1));
    assert!(b.is_won_by(PlayerId::P1));
    assert!(!b.is_won_by(PlayerId::P2));
}

#[test]
fn column_of_o_wins_for_p2() {
    let mut b = Board::new();
    b.set_cell(0, 1, Cell::O);
    b.set_cell(1, 1, Cell::O);
    b.set_cell(2, 1, Cell::O);
    assert_eq!(b.is_won(), Some(PlayerId::P2));
    assert!(b.is_won_by(PlayerId::P2));
}

#[test]
fn diagonal_of_x_wins_for_p1() {
    let mut b = Board::new();
    b.set_cell(0, 0, Cell::X);
    b.set_cell(1, 1, Cell::X);
    b.set_cell(2, 2, Cell::X);
    assert_eq!(b.is_won(), Some(PlayerId::P1));
}

#[test]
fn empty_board_has_no_winner() {
    let b = Board::new();
    assert_eq!(b.is_won(), None);
    assert!(!b.is_won_by(PlayerId::P1));
    assert!(!b.is_won_by(PlayerId::P2));
}

#[test]
fn player_id_next_and_cell() {
    assert_eq!(PlayerId::P1.next(), PlayerId::P2);
    assert_eq!(PlayerId::P2.next(), PlayerId::P1);
    assert_eq!(PlayerId::P1.as_cell(), Cell::X);
    assert_eq!(PlayerId::P2.as_cell(), Cell::O);
}

#[test]
fn boards_compare_by_contents() {
    let mut a = Board::new();
    a.set_cell(2, 2, Cell::O);
    let mut b = Board::new();
    assert_ne!(a, b);
    b.set_cell(2, 2, Cell::O);
    assert_eq!(a, b);
}
