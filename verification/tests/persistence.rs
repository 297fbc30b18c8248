use rl_tic_tac_toe::game::{Board, Cell, PlayerId};
use rl_tic_tac_toe::persist::{load_player, parse_saved, saved_text, ParseError};
use rl_tic_tac_toe::player::RLPlayer;
use rl_tic_tac_toe::value::SCALE;

fn full_board_won_by_x() -> Board {
    Board::from_cells([
        Cell::X,
        Cell::X,
        Cell::X,
        Cell::O,
        Cell::O,
        Cell::X,
        Cell::O,
        Cell::X,
        Cell::O,
    ])
}

fn full_board_won_by_o() -> Board {
    Board::from_cells([
        Cell::O,
        Cell::O,
        Cell::O,
        Cell::X,
        Cell::X,
        Cell::O,
        Cell::X,
        Cell::O,
        Cell::X,
    ])
}

fn full_drawn_board() -> Board {
    Board::from_cells([
        Cell::X,
        Cell::O,
        Cell::X,
        Cell::X,
        Cell::O,
        Cell::O,
        Cell::O,
        Cell::X,
        Cell::X,
    ])
}

#[test]
fn saved_text_of_a_fresh_agent_is_the_bare_header() {
    let agent = RLPlayer::new(PlayerId::P1, 80000);
    assert_eq!(saved_text(&agent), b"epsilon: 0.080000, alpha: 0.100000\n".to_vec());
}

#[test]
fn saved_text_writes_one_line_per_entry() {
    let mut agent = RLPlayer::new(PlayerId::P1, 0);
    let b = full_board_won_by_x();
    agent.select_move(&b);
    assert_eq!(
        saved_text(&agent),
        b"epsilon: 0.000000, alpha: 0.100000\n[XXXOOXOXO] 1.000000\n".to_vec()
    );
}

#[test]
fn persistence_round_trip_keeps_three_pairs_and_alpha() {
    // three known pairs: a win (1.0), a loss (0.0), a draw (0.5), with
    // epsilon = 0.08 and the default alpha = 0.1
    let mut agent = RLPlayer::new(PlayerId::P1, 80000);
    let wins = full_board_won_by_x();
    let loses = full_board_won_by_o();
    let draws = full_drawn_board();
    agent.select_move(&wins);
    agent.select_move(&loses);
    agent.select_move(&draws);
    let text = saved_text(&agent);

    let loaded = load_player(PlayerId::P1, &text).unwrap();
    assert_eq!(loaded.alpha(), 100000);
    assert_eq!(loaded.epsilon(), 80000);
    let entries = loaded.get_estimates();
    assert_eq!(entries.len(), 3);
    assert_eq!(entries[0], (wins, SCALE));
    assert_eq!(entries[1], (loses, 0));
    assert_eq!(entries[2], (draws, 500000));
}

#[test]
fn load_accepts_short_decimals() {
    let text = b"epsilon: 0.08, alpha: 0.1\n[_________] 0.5\n";
    let loaded = load_player(PlayerId::P2, text).unwrap();
    assert_eq!(loaded.epsilon(), 80000);
    assert_eq!(loaded.alpha(), 100000);
    assert_eq!(loaded.get_estimates(), vec![(Board::new(), 500000)]);
}

#[test]
fn load_accepts_a_unit_value() {
    let text = b"epsilon: 1, alpha: 1\n[_________] 1\n";
    let loaded = load_player(PlayerId::P1, text).unwrap();
    assert_eq!(loaded.epsilon(), SCALE);
    assert_eq!(loaded.alpha(), SCALE);
    assert_eq!(loaded.get_estimates(), vec![(Board::new(), SCALE)]);
}

#[test]
fn a_repeated_board_keeps_the_later_value() {
    let text = b"epsilon: 0, alpha: 0.1\n[_________] 0.25\n[_________] 0.75\n";
    let (_, _, table) = parse_saved(text).unwrap();
    assert_eq!(table.len(), 1);
    assert_eq!(table.lookup(&Board::new()), Some(750000));
}

#[test]
fn garbled_header_is_rejected() {
    assert!(matches!(parse_saved(b"alpha: 0.1\n"), Err(ParseError::BadHeader)));
    assert!(matches!(parse_saved(b""), Err(ParseError::BadHeader)));
    assert!(matches!(parse_saved(b"epsilon: 0.08 alpha: 0.1\n"), Err(ParseError::BadHeader)));
}

#[test]
fn out_of_range_hyperparameters_are_rejected() {
    // epsilon above one
    assert!(matches!(parse_saved(b"epsilon: 1.5, alpha: 0.1\n"), Err(ParseError::BadHeader)));
    // a zero step size
    assert!(matches!(parse_saved(b"epsilon: 0.08, alpha: 0\n"), Err(ParseError::BadHeader)));
}

#[test]
fn malformed_entry_lines_are_rejected() {
    let no_space = b"epsilon: 0, alpha: 0.1\n[_________]0.5\n";
    assert!(matches!(parse_saved(no_space), Err(ParseError::BadEntry)));
    let bad_board = b"epsilon: 0, alpha: 0.1\n[________Q] 0.5\n";
    assert!(matches!(parse_saved(bad_board), Err(ParseError::BadEntry)));
    let bad_value = b"epsilon: 0, alpha: 0.1\n[_________] half\n";
    assert!(matches!(parse_saved(bad_value), Err(ParseError::BadEntry)));
    let value_too_big = b"epsilon: 0, alpha: 0.1\n[_________] 1.5\n";
    assert!(matches!(parse_saved(value_too_big), Err(ParseError::BadEntry)));
    let blank_line = b"epsilon: 0, alpha: 0.1\n[_________] 0.5\n\n";
    assert!(matches!(parse_saved(blank_line), Err(ParseError::BadEntry)));
}

#[test]
fn a_final_line_may_lack_its_newline() {
    let text = b"epsilon: 0, alpha: 0.1\n[_________] 0.5";
    let (_, _, table) = parse_saved(text).unwrap();
    assert_eq!(table.lookup(&Board::new()), Some(500000));
}
