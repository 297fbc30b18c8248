use rl_tic_tac_toe::game::{Board, Cell, PlayerId};
use rl_tic_tac_toe::player::{Player, RLPlayer};
use rl_tic_tac_toe::value::{DEFAULT_ALPHA, HALF, SCALE};

fn full_board_won_by_x() -> Board {
    // X X X
    // O O X
    // O X O
    Board::from_cells([
        Cell::X,
        Cell::X,
        Cell::X,
        Cell::O,
        Cell::O,
        Cell::X,
        Cell::O,
        Cell::X,
        Cell::O,
    ])
}

fn full_board_won_by_o() -> Board {
    // O O O
    // X X O
    // X O X
    Board::from_cells([
        Cell::O,
        Cell::O,
        Cell::O,
        Cell::X,
        Cell::X,
        Cell::O,
        Cell::X,
        Cell::O,
        Cell::X,
    ])
}

fn stored_value(agent: &RLPlayer, board: &Board) -> Option<u64> {
    agent
        .get_estimates()
        .into_iter()
        .find(|(b, _)| b == board)
        .map(|(_, v)| v)
}

#[test]
fn new_agent_has_given_epsilon_and_default_alpha() {
    let agent = RLPlayer::new(PlayerId::P1, 80000);
    assert_eq!(agent.player_id(), PlayerId::P1);
    assert_eq!(agent.epsilon(), 80000);
    assert_eq!(agent.alpha(), DEFAULT_ALPHA);
    assert!(agent.get_estimates().is_empty());
}

#[test]
fn select_move_on_full_board_returns_none_but_stores_the_board() {
    let mut agent = RLPlayer::new(PlayerId::P1, 0);
    let b = full_board_won_by_x();
    assert_eq!(agent.select_move(&b), None);
    assert_eq!(agent.get_estimates().len(), 1);
}

#[test]
fn default_value_of_a_board_won_by_own_mark_is_one() {
    let mut agent = RLPlayer::new(PlayerId::P1, 0);
    let b = full_board_won_by_x();
    agent.select_move(&b);
    assert_eq!(stored_value(&agent, &b), Some(SCALE));
}

#[test]
fn default_value_of_a_board_won_by_the_opponent_is_zero() {
    let mut agent = RLPlayer::new(PlayerId::P1, 0);
    let b = full_board_won_by_o();
    agent.select_move(&b);
    assert_eq!(stored_value(&agent, &b), Some(0));
}

#[test]
fn default_value_of_an_undecided_board_is_one_half() {
    let mut agent = RLPlayer::new(PlayerId::P1, 0);
    let b = Board::new();
    agent.select_move(&b);
    assert_eq!(stored_value(&agent, &b), Some(HALF));
}

#[test]
fn default_values_follow_the_observing_player() {
    // the same board scores oppositely for the two agents
    let b = full_board_won_by_x();
    let mut p1 = RLPlayer::new(PlayerId::P1, 0);
    let mut p2 = RLPlayer::new(PlayerId::P2, 0);
    p1.select_move(&b);
    p2.select_move(&b);
    assert_eq!(stored_value(&p1, &b), Some(SCALE));
    assert_eq!(stored_value(&p2, &b), Some(0));
}

#[test]
fn greedy_agent_takes_the_winning_move() {
    // X X _      the greedy agent must complete the row at (0, 2)
    // O O _
    // _ _ _
    let mut b = Board::new();
    b.set_cell(0, 0, Cell::X);
    b.set_cell(0, 1, Cell::X);
    b.set_cell(1, 0, Cell::O);
    b.set_cell(1, 1, Cell::O);
    let mut agent = RLPlayer::new(PlayerId::P1, 0);
    assert_eq!(agent.select_move(&b), Some((0, 2)));
}

#[test]
fn any_agent_takes_the_only_remaining_move() {
    // one empty cell at (2, 2); both the greedy and the exploratory path
    // must return it, whatever the random draw
    let cells = [
        Cell::X,
        Cell::O,
        Cell::X,
        Cell::X,
        Cell::O,
        Cell::O,
        Cell::O,
        Cell::X,
        Cell::Nil,
    ];
    let b = Board::from_cells(cells);
    let mut always_greedy = RLPlayer::new(PlayerId::P1, 0);
    assert_eq!(always_greedy.select_move(&b), Some((2, 2)));
    let mut always_exploring = RLPlayer::new(PlayerId::P1, SCALE);
    assert_eq!(always_exploring.select_move(&b), Some((2, 2)));
}

#[test]
fn learning_with_equal_estimates_changes_nothing() {
    let mut agent = RLPlayer::new(PlayerId::P1, 0);
    let b = Board::new();
    agent.select_move(&b);
    let mut after = b;
    after.set_cell(0, 0, Cell::X);
    // both grids sit at one half, so the update must leave the value alone
    agent.learn_from_transition(&b, &after);
    assert_eq!(stored_value(&agent, &b), Some(HALF));
}

#[test]
fn winning_transition_pulls_the_prior_value_toward_one() {
    // a scripted game: X (0,0), O (1,0), X (0,1), O (1,1), X (0,2) wins
    let mut agent = RLPlayer::new(PlayerId::P1, 0);
    let mut board = Board::new();
    let script_x = [(0, 0), (0, 1), (0, 2)];
    let script_o = [(1, 0), (1, 1)];
    for turn in 0..3 {
        let prior = board;
        agent.select_move(&prior);
        let (r, c) = script_x[turn];
        board.set_cell(r, c, Cell::X);
        agent.learn_from_transition(&prior, &board);
        if turn < 2 {
            let (orow, ocol) = script_o[turn];
            board.set_cell(orow, ocol, Cell::O);
        }
    }
    // the board before the winning move sat at one half; learning from the
    // won position moves it a tenth of the way to one: 0.55, never past 1
    let mut second_to_last = Board::new();
    second_to_last.set_cell(0, 0, Cell::X);
    second_to_last.set_cell(0, 1, Cell::X);
    second_to_last.set_cell(1, 0, Cell::O);
    second_to_last.set_cell(1, 1, Cell::O);
    let learned = stored_value(&agent, &second_to_last).unwrap();
    assert_eq!(learned, 550000);
    assert!(learned > HALF);
    assert!(learned <= SCALE);
}

#[test]
fn the_player_trait_drives_the_agent() {
    let mut agent = RLPlayer::new(PlayerId::P1, 0);
    let b = Board::new();
    let mv = Player::choose_action(&mut agent, &b);
    assert!(mv.is_some());
    let (r, c) = mv.unwrap();
    assert!(r < 3 && c < 3);
    let mut after = b;
    after.set_cell(r, c, Cell::X);
    Player::update_after_action(&mut agent, &b, &after);
    assert!(stored_value(&agent, &b).is_some());
}

#[test]
fn greedy_scan_keeps_the_first_of_tied_moves() {
    // on an empty board every candidate sits at one half, and only a
    // strictly greater estimate displaces the incumbent, so the greedy
    // agent keeps the first move of the row-major scan
    let mut agent = RLPlayer::new(PlayerId::P1, 0);
    assert_eq!(agent.select_move(&Board::new()), Some((0, 0)));
}

#[test]
fn select_move_stores_every_candidate_it_evaluated() {
    // lookahead states become entries too: the observed board and its nine
    // candidate successors
    let mut agent = RLPlayer::new(PlayerId::P1, 0);
    agent.select_move(&Board::new());
    let entries = agent.get_estimates();
    assert_eq!(entries.len(), 10);
    assert!(entries.iter().all(|&(_, v)| v == HALF));
}
