use guessing_game::game::Feedback;
use guessing_game::game::Game;
use guessing_game::game::GameState;
use guessing_game::game::LineOutcome;

#[test]
fn secret_is_derived_from_raw_byte() {
    assert_eq!(Game::new(0).value, 1);
    assert_eq!(Game::new(41).value, 42);
    assert_eq!(Game::new(99).value, 100);
    assert_eq!(Game::new(100).value, 1);
    assert_eq!(Game::new(255).value, 56);
}

#[test]
fn new_game_is_active_with_no_guesses() {
    let g = Game::new(12);
    assert_eq!(g.state, GameState::Active);
    assert_eq!(g.guesses, 0);
}

#[test]
fn started_game_has_secret_in_range() {
    let g = Game::start();
    assert!(1 <= g.value && g.value <= 100);
    assert_eq!(g.state, GameState::Active);
    assert_eq!(g.guesses, 0);
}

#[test]
fn win_in_four_guesses() {
    // secret = 42, guesses [50, 25, 40, 42]
    let mut g = Game::new(41);
    assert_eq!(g.value, 42);
    assert_eq!(g.guess(50), Feedback::TooHigh);
    assert_eq!(g.state, GameState::Active);
    assert_eq!(g.guess(25), Feedback::TooLow);
    assert_eq!(g.state, GameState::Active);
    assert_eq!(g.guess(40), Feedback::TooLow);
    assert_eq!(g.state, GameState::Active);
    assert_eq!(g.guess(42), Feedback::Correct);
    assert_eq!(g.state, GameState::Won);
    assert_eq!(g.guesses, 4);
    assert_eq!(g.value, 42);
}

#[test]
fn exhaustion_after_seven_misses() {
    // secret = 7, guesses [1, 2, 3, 4, 5, 6, 8]
    let mut g = Game::new(6);
    assert_eq!(g.value, 7);
    for v in [1, 2, 3, 4, 5, 6] {
        assert_eq!(g.guess(v), Feedback::TooLow);
        assert_eq!(g.state, GameState::Active);
    }
    assert_eq!(g.guess(8), Feedback::TooHigh);
    assert_eq!(g.state, GameState::Exhausted);
    assert_eq!(g.guesses, 7);
    assert_eq!(g.value, 7);
}

#[test]
fn win_on_the_last_guess() {
    let mut g = Game::new(6);
    for v in [1, 2, 3, 4, 5, 6] {
        assert_eq!(g.guess(v), Feedback::TooLow);
    }
    assert_eq!(g.guess(7), Feedback::Correct);
    assert_eq!(g.state, GameState::Won);
    assert_eq!(g.guesses, 7);
}

#[test]
fn submit_line_plays_a_valid_guess() {
    let mut g = Game::new(41);
    assert_eq!(g.submit_line("50\n"), LineOutcome::Played(Feedback::TooHigh));
    assert_eq!(g.guesses, 1);
    assert_eq!(g.submit_line(" 42 "), LineOutcome::Played(Feedback::Correct));
    assert_eq!(g.state, GameState::Won);
    assert_eq!(g.guesses, 2);
}

#[test]
fn submit_line_rejects_unparsed_text() {
    let mut g = Game::new(41);
    assert_eq!(g.submit_line("abc\n"), LineOutcome::NotParsed("abc".to_string()));
    assert_eq!(g.submit_line("3.5"), LineOutcome::NotParsed("3.5".to_string()));
    assert_eq!(g.submit_line(""), LineOutcome::NotParsed("".to_string()));
    assert_eq!(g.guesses, 0);
    assert_eq!(g.state, GameState::Active);
    assert_eq!(g.value, 42);
}

#[test]
fn submit_line_rejects_out_of_range_values() {
    let mut g = Game::new(41);
    assert_eq!(g.submit_line("0"), LineOutcome::OutOfRange(0));
    assert_eq!(g.submit_line("101"), LineOutcome::OutOfRange(101));
    assert_eq!(g.submit_line("255"), LineOutcome::OutOfRange(255));
    assert_eq!(g.guesses, 0);
    assert_eq!(g.state, GameState::Active);
    assert_eq!(g.value, 42);
}

#[test]
fn repeated_rejections_change_nothing() {
    let mut g = Game::new(41);
    for line in ["abc", "0", "101", "", "abc", "3.5", "0"] {
        g.submit_line(line);
        assert_eq!(g.guesses, 0);
        assert_eq!(g.state, GameState::Active);
        assert_eq!(g.value, 42);
    }
    // A valid guess afterwards is still counted as the first one.
    assert_eq!(g.submit_line("42"), LineOutcome::Played(Feedback::Correct));
    assert_eq!(g.guesses, 1);
}

#[test]
fn play_stops_at_a_win() {
    let mut g = Game::new(41);
    let played = g.play(&vec![50, 42, 99, 1]);
    assert_eq!(played, 2);
    assert_eq!(g.state, GameState::Won);
    assert_eq!(g.guesses, 2);
}

#[test]
fn play_exhausts_on_seven_misses() {
    let mut g = Game::new(6);
    let played = g.play(&vec![1, 2, 3, 4, 5, 6, 8, 9, 10]);
    assert_eq!(played, 7);
    assert_eq!(g.state, GameState::Exhausted);
    assert_eq!(g.value, 7);
}

#[test]
fn play_runs_out_of_guesses_while_active() {
    let mut g = Game::new(41);
    let played = g.play(&vec![10, 20]);
    assert_eq!(played, 2);
    assert_eq!(g.state, GameState::Active);
    assert_eq!(g.guesses, 2);
}
