use goban::game::Game;
use goban::mcts::{run_simulation, Tree};
use goban::player::{Bot, Human, Player};
use goban::rng::{rand_below, rng_from_seed};
use goban::signals::Signals;
use goban::stones::Stone;
use goban::uct::{calculate_selection_criteria, isqrt64, log2_floor64};

fn fresh_game() -> Game {
    Game::new(9, false, (Stone::Black, Stone::White), false, 15)
}

#[test]
fn isqrt_values() {
    assert_eq!(isqrt64(0), 0);
    assert_eq!(isqrt64(1), 1);
    assert_eq!(isqrt64(3), 1);
    assert_eq!(isqrt64(4), 2);
    assert_eq!(isqrt64(15), 3);
    assert_eq!(isqrt64(16), 4);
    assert_eq!(isqrt64(1_000_000), 1000);
    assert_eq!(isqrt64(u64::MAX), 4294967295);
}

#[test]
fn log2_values() {
    assert_eq!(log2_floor64(1), 0);
    assert_eq!(log2_floor64(2), 1);
    assert_eq!(log2_floor64(3), 1);
    assert_eq!(log2_floor64(1023), 9);
    assert_eq!(log2_floor64(1024), 10);
    assert_eq!(log2_floor64(u64::MAX), 63);
}

#[test]
fn unvisited_child_scores_highest() {
    assert_eq!(calculate_selection_criteria(0, 0, 10), u64::MAX);
    // a fully won child with one visit under a one-visit parent: pure
    // exploitation is w/n = 1.0, i.e. exactly one fixed-point unit
    assert_eq!(calculate_selection_criteria(2, 1, 1), 65536);
    // lower win rate scores lower under equal visits
    assert!(
        calculate_selection_criteria(1, 4, 16) < calculate_selection_criteria(4, 4, 16)
    );
}

#[test]
fn rand_below_stays_in_range() {
    let mut rng = rng_from_seed(42);
    for n in 1..30usize {
        for _ in 0..10 {
            assert!(rand_below(&mut rng, n) < n);
        }
    }
    assert_eq!(rand_below(&mut rng, 1), 0);
}

#[test]
fn root_visits_equal_iteration_count() {
    let game = fresh_game();
    let mut tree = Tree::new(game);
    let mut rng = rng_from_seed(7);
    assert_eq!(tree.node_at(tree.root_index()).get_total(), 0);
    tree.run_iterations(3, &mut rng);
    assert_eq!(tree.node_at(tree.root_index()).get_total(), 3);
    assert_eq!(tree.steps_done(), 3);
    // win increments never exceed the visit count (wins are half-points)
    for i in 0..tree.node_count() {
        let n = tree.node_at(i);
        assert!(n.get_won() <= 2 * (n.get_total() as u64));
    }
}

#[test]
fn committed_child_keeps_its_statistics() {
    let game = fresh_game();
    let mut tree = Tree::new(game.duplicate());
    let mut rng = rng_from_seed(11);
    tree.run_iterations(3, &mut rng);
    let (mv, child) = tree.best_move();
    let child_won = tree.node_at(child).get_won();
    let child_total = tree.node_at(child).get_total();
    // commit the real move and advance the root
    let mut real = game.duplicate();
    let step = real.step(mv);
    assert!(step.is_ok() || step == Err(Signals::DoublePass));
    tree.update_root_after_move(&real);
    let root = tree.root_index();
    assert_eq!(tree.node_at(root).get_won(), child_won);
    assert_eq!(tree.node_at(root).get_total(), child_total);
    assert!(tree.node_at(root).get_state().equals(&real));
}

#[test]
fn unknown_state_gets_a_fresh_root() {
    let game = fresh_game();
    let mut tree = Tree::new(game.duplicate());
    let mut rng = rng_from_seed(13);
    tree.run_iterations(2, &mut rng);
    // a state the tree has never seen
    let mut other = fresh_game();
    assert!(other.step(Some((8, 8))).is_ok());
    assert!(other.step(Some((0, 0))).is_ok());
    tree.update_root_after_move(&other);
    let root = tree.root_index();
    assert_eq!(tree.node_at(root).get_won(), 0);
    assert_eq!(tree.node_at(root).get_total(), 0);
    assert!(tree.node_at(root).get_state().equals(&other));
}

#[test]
fn bot_returns_a_legal_move() {
    let game = fresh_game();
    let mut bot = Bot::new(Stone::Black, game.duplicate(), 2, 3);
    let mv = bot.choose_case(&game);
    let mut g = game.duplicate();
    match mv {
        Some(c) => {
            assert!(g.step(Some(c)).is_ok());
        },
        None => {
            assert!(g.step(None).is_ok());
        },
    }
}

#[test]
fn bot_passes_on_a_terminal_game() {
    let mut game = fresh_game();
    let _ = game.step(None);
    let _ = game.step(None);
    assert!(game.is_over());
    let mut bot = Bot::new(Stone::Black, fresh_game(), 2, 5);
    assert_eq!(bot.choose_case(&game), None);
}

#[test]
fn rollout_of_a_terminal_game_is_its_winner() {
    let mut game = fresh_game();
    let _ = game.step(None);
    let _ = game.step(None);
    assert!(game.is_over());
    let mut rng = rng_from_seed(9);
    assert_eq!(goban::mcts::simulate_rollout(&game, &mut rng), game.winner());
    // komi alone decides the empty game: white wins
    assert_eq!(game.winner(), Some(Stone::White));
}

#[test]
fn players_expose_identity() {
    let h = Human::new(Stone::Black);
    assert_eq!(h.get_stone(), Stone::Black);
    assert_eq!(h.get_name(), "Black");
    let bot = Bot::new(Stone::White, fresh_game(), 1, 0);
    assert_eq!(bot.get_stone(), Stone::White);
    assert_eq!(bot.get_name(), "White");
}

#[test]
fn random_simulation_reports_an_outcome() {
    let r = run_simulation(9, false, 15, 12345);
    match r {
        Some(s) => assert!(s == Stone::Black || s == Stone::White),
        None => {},
    }
}

#[test]
fn signal_messages() {
    assert_eq!(
        Signals::InducesSuicide.message(),
        "Move induces suicide with no capture"
    );
    assert_eq!(Signals::DoublePass.message(), "Both players have passed");
    assert_eq!(Signals::GameOver.message(), "Game is over");
}
