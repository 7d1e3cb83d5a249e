use goban::board::Board;
use goban::game::Game;
use goban::signals::Signals;
use goban::stones::Stone;

fn game_on(
    board: Board,
    current_player: usize,
    super_ko: bool,
    last_boards: Vec<Board>,
    last_movers: Vec<usize>,
) -> Game {
    let size = board.side();
    Game::from(
        size,
        board,
        super_ko,
        last_boards,
        last_movers,
        (Stone::Black, Stone::White),
        current_player,
        false,
        15,
        false,
    )
}

#[test]
fn double_pass_ends_game() {
    let mut g = Game::new(9, false, (Stone::Black, Stone::White), false, 15);
    assert!(g.step(None).is_ok());
    assert!(!g.is_over());
    let r = g.step(None);
    assert_eq!(r, Err(Signals::DoublePass));
    assert!(g.is_over());
}

#[test]
fn step_after_game_over_is_rejected() {
    let mut g = Game::new(9, false, (Stone::Black, Stone::White), false, 15);
    let _ = g.step(None);
    let _ = g.step(None);
    assert!(g.is_over());
    assert_eq!(g.step(Some((0, 0))), Err(Signals::GameOver));
    assert_eq!(g.step(None), Err(Signals::GameOver));
}

#[test]
fn outside_bounds_is_rejected() {
    let mut g = Game::new(9, false, (Stone::Black, Stone::White), false, 15);
    assert_eq!(g.step(Some((9, 0))), Err(Signals::OutsideBounds));
    assert_eq!(g.step(Some((0, 9))), Err(Signals::OutsideBounds));
    assert_eq!(g.step(Some((100, 100))), Err(Signals::OutsideBounds));
    // a rejected move does not swap the turn
    assert_eq!(g.get_current_player(), Stone::Black);
}

#[test]
fn occupied_case_is_rejected() {
    let mut g = Game::new(9, false, (Stone::Black, Stone::White), false, 15);
    assert!(g.step(Some((4, 4))).is_ok());
    assert_eq!(g.get_current_player(), Stone::White);
    assert_eq!(g.step(Some((4, 4))), Err(Signals::OccupiedCase));
}

#[test]
fn committed_move_places_stone_and_swaps_turn() {
    let mut g = Game::new(9, false, (Stone::Black, Stone::White), false, 15);
    assert_eq!(g.get_current_player(), Stone::Black);
    assert!(g.step(Some((2, 3))).is_ok());
    assert_eq!(g.get(2, 3), Stone::Black);
    assert_eq!(g.get_current_player(), Stone::White);
    assert!(g.step(Some((5, 5))).is_ok());
    assert_eq!(g.get(5, 5), Stone::White);
    assert_eq!(g.get_current_player(), Stone::Black);
}

#[test]
fn surrounded_point_is_suicide() {
    // White stones at all four orthogonal neighbours of (4,4); Black playing
    // (4,4) must fail with InducesSuicide.
    let mut b = Board::new(9);
    b.set((3, 4), Stone::White);
    b.set((5, 4), Stone::White);
    b.set((4, 3), Stone::White);
    b.set((4, 5), Stone::White);
    let mut g = game_on(b, 0, false, Vec::new(), Vec::new());
    assert_eq!(g.step(Some((4, 4))), Err(Signals::InducesSuicide));
    assert_eq!(g.get(4, 4), Stone::Empty);
    assert_eq!(g.get_current_player(), Stone::Black);
}

#[test]
fn corner_suicide_is_rejected() {
    let mut b = Board::new(9);
    b.set((0, 1), Stone::Black);
    b.set((1, 0), Stone::Black);
    // White to move into the corner point with no liberties and no capture.
    let mut g = game_on(b, 1, false, Vec::new(), Vec::new());
    assert_eq!(g.step(Some((0, 0))), Err(Signals::InducesSuicide));
}

#[test]
fn capture_removes_surrounded_stone() {
    let mut b = Board::new(9);
    b.set((0, 0), Stone::White);
    b.set((0, 1), Stone::Black);
    let mut g = game_on(b, 0, false, Vec::new(), Vec::new());
    assert!(g.step(Some((1, 0))).is_ok());
    assert_eq!(g.get(0, 0), Stone::Empty);
    assert_eq!(g.get(1, 0), Stone::Black);
    assert_eq!(g.get(0, 1), Stone::Black);
}

#[test]
fn move_in_captured_spot_is_not_suicide() {
    // Black filling the last liberty of a white stone captures it even
    // though the point itself has no liberty beforehand.
    let mut b = Board::new(9);
    // White stone at (0,1) with black stones around, so black playing (0,0)
    // captures it although (0,0) would have no liberty of its own.
    b.set((0, 1), Stone::White);
    b.set((1, 0), Stone::White);
    b.set((0, 2), Stone::Black);
    b.set((1, 1), Stone::Black);
    b.set((2, 0), Stone::Black);
    let mut g = game_on(b, 0, false, Vec::new(), Vec::new());
    assert!(g.step(Some((0, 0))).is_ok());
    assert_eq!(g.get(0, 1), Stone::Empty);
    assert_eq!(g.get(1, 0), Stone::Empty);
    assert_eq!(g.get(0, 0), Stone::Black);
}

#[test]
fn one_move_captures_two_distinct_groups() {
    let mut b = Board::new(9);
    b.set((0, 1), Stone::White);
    b.set((1, 0), Stone::White);
    b.set((0, 0), Stone::Black);
    b.set((0, 2), Stone::Black);
    b.set((2, 0), Stone::Black);
    let mut g = game_on(b, 0, false, Vec::new(), Vec::new());
    assert!(g.step(Some((1, 1))).is_ok());
    // both independently surrounded white groups are gone
    assert_eq!(g.get(0, 1), Stone::Empty);
    assert_eq!(g.get(1, 0), Stone::Empty);
    assert_eq!(g.get(1, 1), Stone::Black);
}

fn ko_board() -> Board {
    let mut b = Board::new(9);
    b.set((2, 3), Stone::Black);
    b.set((3, 2), Stone::Black);
    b.set((4, 3), Stone::Black);
    b.set((2, 4), Stone::White);
    b.set((3, 5), Stone::White);
    b.set((4, 4), Stone::White);
    b.set((3, 3), Stone::White);
    b
}

#[test]
fn simple_ko_recapture_is_rejected() {
    let setup = ko_board();
    // The setup board is the one White produced on its previous turn.
    let history = vec![setup.duplicate()];
    let mut g = game_on(setup, 0, false, history, vec![1]);
    // Black captures the white stone in the ko shape.
    assert!(g.step(Some((3, 4))).is_ok());
    assert_eq!(g.get(3, 3), Stone::Empty);
    // White recapturing immediately would reproduce the previous board.
    assert_eq!(g.step(Some((3, 3))), Err(Signals::BreakingKo));
}

#[test]
fn superko_recapture_is_rejected() {
    let setup = ko_board();
    let history = vec![setup.duplicate()];
    let mut g = game_on(setup, 0, true, history, vec![1]);
    assert!(g.step(Some((3, 4))).is_ok());
    assert_eq!(g.step(Some((3, 3))), Err(Signals::BreakingSuperKo));
}

#[test]
fn ko_does_not_block_unrelated_capture() {
    // Without the forbidden repetition the same shape commits fine.
    let setup = ko_board();
    let mut g = game_on(setup, 0, false, Vec::new(), Vec::new());
    assert!(g.step(Some((3, 4))).is_ok());
    // White recapture reproduces no recorded board here, so it commits.
    assert!(g.step(Some((3, 3))).is_ok());
    assert_eq!(g.get(3, 4), Stone::Empty);
}
