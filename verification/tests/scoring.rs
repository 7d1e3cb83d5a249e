use goban::board::Board;
use goban::game::Game;
use goban::stones::Stone;

fn game_on(board: Board, komi2: u32) -> Game {
    let size = board.side();
    Game::from(
        size,
        board,
        false,
        Vec::new(),
        Vec::new(),
        (Stone::Black, Stone::White),
        0,
        false,
        komi2,
        false,
    )
}

#[test]
fn empty_board_assigns_no_territory() {
    let g = game_on(Board::new(9), 15);
    assert_eq!(g.territory_owner((4, 4)), None);
    assert_eq!(g.territory_owner((0, 0)), None);
    // only the komi is scored
    assert_eq!(g.calculate_scores(), (0, 15));
    assert_eq!(g.winner(), Some(Stone::White));
}

#[test]
fn lone_stone_owns_the_whole_board() {
    // One black stone: every empty cell belongs to one region whose border
    // is that stone, so black scores 2 * 1 + 2 * 80 half-points.
    let mut b = Board::new(9);
    b.set((0, 0), Stone::Black);
    let g = game_on(b, 15);
    assert_eq!(g.territory_owner((4, 4)), Some(Stone::Black));
    assert_eq!(g.number_stones(Stone::Black), 1);
    assert_eq!(g.number_stones(Stone::White), 0);
    assert_eq!(g.calculate_scores(), (162, 15));
    assert_eq!(g.winner(), Some(Stone::Black));
    assert_eq!(g.calculate_scores_difference(), 147);
}

#[test]
fn mixed_border_owns_nothing() {
    // A black and a white stone both border the single empty region.
    let mut b = Board::new(9);
    b.set((0, 0), Stone::Black);
    b.set((8, 8), Stone::White);
    let g = game_on(b, 0);
    assert_eq!(g.territory_owner((4, 4)), None);
    // each side scores its stones only
    assert_eq!(g.calculate_scores(), (2, 2));
    assert_eq!(g.winner(), None);
}

#[test]
fn walled_off_region_is_scored_per_cell() {
    // A black wall on column 1 of a 9x9 board separates column 0 (9 cells
    // of black territory) from the rest, where a white stone sits.
    let mut b = Board::new(9);
    for i in 0..9 {
        b.set((i, 1), Stone::Black);
    }
    b.set((4, 4), Stone::White);
    let g = game_on(b, 0);
    assert_eq!(g.territory_owner((0, 0)), Some(Stone::Black));
    assert_eq!(g.territory_owner((4, 5)), None);
    // black: 9 stones + 9 territory cells = 36 half-points
    assert_eq!(g.calculate_scores(), (36, 2));
    assert_eq!(g.winner(), Some(Stone::Black));
}

#[test]
fn komi_breaks_a_tie() {
    let mut b = Board::new(9);
    b.set((0, 1), Stone::Black);
    b.set((8, 7), Stone::White);
    // without komi both own a corner-sized region of 1 cell... here the
    // regions merge, so score stones only; komi decides.
    let g = game_on(b, 1);
    assert_eq!(g.calculate_scores(), (2, 3));
    assert_eq!(g.winner(), Some(Stone::White));
}

#[test]
fn number_stones_counts_exactly() {
    let mut b = Board::new(9);
    b.set((0, 0), Stone::Black);
    b.set((1, 1), Stone::Black);
    b.set((2, 2), Stone::White);
    let g = game_on(b, 0);
    assert_eq!(g.number_stones(Stone::Black), 2);
    assert_eq!(g.number_stones(Stone::White), 1);
    assert_eq!(g.number_stones(Stone::Empty), 78);
}

#[test]
fn eye_owner_detects_single_colour_neighbours() {
    let mut b = Board::new(9);
    b.set((3, 4), Stone::White);
    b.set((5, 4), Stone::White);
    b.set((4, 3), Stone::White);
    b.set((4, 5), Stone::White);
    b.set((0, 1), Stone::Black);
    b.set((1, 0), Stone::Black);
    let g = game_on(b, 0);
    assert_eq!(g.eye_owner((4, 4)), Some(Stone::White));
    assert_eq!(g.eye_owner((0, 0)), Some(Stone::Black));
    assert_eq!(g.eye_owner((7, 7)), None);
}

#[test]
fn group_with_two_eyes_is_alive() {
    let mut b = Board::new(9);
    // black stones leaving single-point eyes at (0,1) and (0,3)
    b.set((0, 0), Stone::Black);
    b.set((0, 2), Stone::Black);
    b.set((0, 4), Stone::Black);
    b.set((1, 1), Stone::Black);
    b.set((1, 3), Stone::Black);
    let g = game_on(b, 0);
    assert_eq!(g.group_owner((0, 0)), Some(Stone::Black));
}

#[test]
fn group_with_one_eye_is_not_alive() {
    let mut b = Board::new(9);
    b.set((0, 0), Stone::Black);
    b.set((0, 2), Stone::Black);
    b.set((1, 1), Stone::Black);
    let g = game_on(b, 0);
    assert_eq!(g.group_owner((0, 0)), None);
}

#[test]
fn available_cases_excludes_occupied_and_suicidal_points() {
    let mut b = Board::new(9);
    b.set((3, 4), Stone::White);
    b.set((5, 4), Stone::White);
    b.set((4, 3), Stone::White);
    b.set((4, 5), Stone::White);
    let g = game_on(b, 0);
    let cases = g.available_cases(Stone::Black);
    // 81 cells minus 4 occupied minus 1 suicidal, plus the pass
    assert_eq!(cases.len(), 77);
    assert_eq!(cases.last(), Some(&None));
    assert!(!cases.contains(&Some((4, 4))));
    assert!(!cases.contains(&Some((3, 4))));
    assert!(cases.contains(&Some((0, 0))));
    // the surrounded point is fine for white itself
    let white_cases = g.available_cases(Stone::White);
    assert!(white_cases.contains(&Some((4, 4))));
}

#[test]
fn available_cases_on_empty_board_lists_every_cell_and_pass() {
    let g = game_on(Board::new(9), 0);
    let cases = g.available_cases(Stone::Black);
    assert_eq!(cases.len(), 82);
    assert_eq!(cases.last(), Some(&None));
}
