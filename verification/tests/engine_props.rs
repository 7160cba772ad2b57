use wordle::dictionary::Dictionary;
use wordle::game::{Game, GameState, GuessError};
use wordle::letters::Letters;

#[test]
fn winning_guess_marks_every_position_exact() {
    let d = Dictionary::new("pivo/SHORT\nauto/SHORT\ncivka/OK", 5);
    let mut game = Game::new_with_word(6, &d, "CIVKA".to_string());

    let g = game.submit_guess("civka").unwrap();
    assert!(g.is_correct);
    assert_eq!(g.green_positions, vec![0, 1, 2, 3, 4]);
    assert!(g.yellow_positions.is_empty());
    assert!(game.get_game_state() == GameState::Win(1));
}

#[test]
fn scenario_single_exact_position() {
    let d = Dictionary::new("civka/OK\nxyzya/OK", 5);
    let mut game = Game::new_with_word(6, &d, "CIVKA".to_string());

    let g = game.submit_guess("xyzya").unwrap();
    assert!(!g.is_correct);
    assert_eq!(g.green_positions, vec![4]);
    assert!(g.yellow_positions.is_empty());
}

#[test]
fn exact_and_present_positions_are_disjoint() {
    let d = Dictionary::new("civka/OK\nakivc/OK", 5);
    let mut game = Game::new_with_word(6, &d, "CIVKA".to_string());

    let g = game.submit_guess("akivc").unwrap();
    assert!(!g.is_correct);
    assert!(g.green_positions.is_empty());
    assert_eq!(g.yellow_positions, vec![0, 1, 2, 3, 4]);
    for p in &g.green_positions {
        assert!(!g.yellow_positions.contains(p));
    }
}

#[test]
fn present_marks_have_no_multiplicity_cap() {
    // The secret holds one 'A', yet both 'a's of the candidate are
    // marked present.
    let d = Dictionary::new("civka/OK\nbanan/OK", 5);
    let mut game = Game::new_with_word(6, &d, "CIVKA".to_string());

    let g = game.submit_guess("banan").unwrap();
    assert!(g.green_positions.is_empty());
    assert_eq!(g.yellow_positions, vec![1, 3]);
}

#[test]
fn wrong_length_mutates_nothing() {
    let d = Dictionary::new("civka/OK", 5);
    let mut game = Game::new_with_word(6, &d, "CIVKA".to_string());

    let r = game.submit_guess("toolongword");
    assert_eq!(r.err().unwrap(), GuessError::WrongLength(11));
    assert_eq!(game.get_guesses().len(), 0);
    assert!(game.get_letters().get_used_letters().is_empty());
    assert!(game.get_letters().get_green_letters().is_empty());
    assert!(game.get_letters().get_yellow_letters().is_empty());
    assert!(game.get_game_state() == GameState::Ongoing(0));
}

#[test]
fn unknown_word_mutates_nothing() {
    let d = Dictionary::new("civka/OK", 5);
    let mut game = Game::new_with_word(6, &d, "CIVKA".to_string());

    let r = game.submit_guess("abcde");
    assert_eq!(r.err().unwrap(), GuessError::NotInDictionary);
    assert_eq!(game.get_guesses().len(), 0);
    assert!(game.get_letters().get_used_letters().is_empty());
    assert!(game.get_game_state() == GameState::Ongoing(0));
}

#[test]
fn tracker_sets_never_shrink_across_a_session() {
    let d = Dictionary::new("civka/OK\nxyzya/OK\nakivc/OK", 5);
    let mut game = Game::new_with_word(6, &d, "CIVKA".to_string());

    game.submit_guess("xyzya").unwrap();
    let used_before: Vec<char> = game.get_letters().get_used_letters().clone();
    let green_before: Vec<char> = game.get_letters().get_green_letters().clone();
    let yellow_before: Vec<char> = game.get_letters().get_yellow_letters().clone();
    assert!(used_before.contains(&'X'));
    assert!(green_before.contains(&'A'));

    game.submit_guess("akivc").unwrap();
    let letters = game.get_letters();
    for c in &used_before {
        assert!(letters.get_used_letters().contains(c));
    }
    for c in &green_before {
        assert!(letters.get_green_letters().contains(c));
    }
    for c in &yellow_before {
        assert!(letters.get_yellow_letters().contains(c));
    }
    assert!(letters.get_yellow_letters().contains(&'A'));
}

#[test]
fn tracker_classifies_letters_of_a_guess() {
    let d = Dictionary::new("civka/OK\ncixya/OK", 5);
    let mut game = Game::new_with_word(6, &d, "CIVKA".to_string());

    // C and I exact, X absent, Y absent, A exact at the last position.
    let g = game.submit_guess("cixya").unwrap();
    assert_eq!(g.green_positions, vec![0, 1, 4]);
    assert!(g.yellow_positions.is_empty());

    let letters = game.get_letters();
    assert!(letters.get_used_letters().contains(&'C'));
    assert!(letters.get_used_letters().contains(&'X'));
    assert!(letters.get_green_letters().contains(&'C'));
    assert!(letters.get_green_letters().contains(&'A'));
    assert!(!letters.get_green_letters().contains(&'X'));
    assert!(!letters.get_yellow_letters().contains(&'X'));
}

#[test]
fn submissions_are_case_insensitive() {
    let d = Dictionary::new("civka/OK", 5);
    let mut game = Game::new_with_word(6, &d, "CIVKA".to_string());

    let g = game.submit_guess("CiVkA").unwrap();
    assert!(g.is_correct);
    assert_eq!(g.word, "CIVKA");
}

#[test]
fn losing_needs_the_exact_budget_spent_without_a_win() {
    let d = Dictionary::new("civka/OK\nxyzya/OK", 5);
    let mut game = Game::new_with_word(2, &d, "CIVKA".to_string());

    game.submit_guess("xyzya").unwrap();
    assert!(game.get_game_state() == GameState::Ongoing(1));
    game.submit_guess("xyzya").unwrap();
    assert!(game.get_game_state() == GameState::Lose);
}

#[test]
fn winning_on_the_last_try_is_a_win() {
    let d = Dictionary::new("civka/OK\nxyzya/OK", 5);
    let mut game = Game::new_with_word(2, &d, "CIVKA".to_string());

    game.submit_guess("xyzya").unwrap();
    game.submit_guess("civka").unwrap();
    assert!(game.get_game_state() == GameState::Win(2));
}

#[test]
fn letter_marking_is_idempotent() {
    let mut letters = Letters::new();
    letters.add_used_letter('A');
    letters.add_used_letter('A');
    letters.add_green_letter('B');
    letters.add_green_letter('B');
    letters.add_yellow_letter('C');
    letters.add_yellow_letter('C');
    assert_eq!(letters.get_used_letters().len(), 1);
    assert_eq!(letters.get_green_letters().len(), 1);
    assert_eq!(letters.get_yellow_letters().len(), 1);
    assert!(letters.get_used_letters().contains(&'A'));
    assert!(letters.get_green_letters().contains(&'B'));
    assert!(letters.get_yellow_letters().contains(&'C'));
}

#[test]
fn injected_secret_is_normalized() {
    let d = Dictionary::new("civka/OK", 5);
    let mut game = Game::new_with_word(6, &d, "civka".to_string());
    assert_eq!(game.get_correct_word(), "CIVKA");
    let g = game.submit_guess("civka").unwrap();
    assert!(g.is_correct);
}

#[test]
fn unknown_word_of_matching_length_is_a_dictionary_error() {
    // A sharp s is one letter that uppercases to two; with the raw
    // letter count matching the secret's, the dictionary check decides.
    let d = Dictionary::new("a", 1);
    let mut game = Game::new_with_word(1, &d, "A".to_string());
    let r = game.submit_guess("ß");
    assert_eq!(r.err().unwrap(), GuessError::NotInDictionary);
    assert_eq!(game.get_guesses().len(), 0);
}

#[test]
fn listed_word_that_grows_under_normalization_is_a_length_error() {
    // "ß" uppercases to the listed "SS" but cannot be scored against a
    // one-letter secret position by position, so the length error comes
    // after the dictionary check passes.
    let d = Dictionary::new("ss", 2);
    assert!(d.contains("ß"));
    let mut game = Game::new_with_word(1, &d, "A".to_string());
    let r = game.submit_guess("ß");
    assert_eq!(r.err().unwrap(), GuessError::WrongLength(1));
    assert_eq!(game.get_guesses().len(), 0);
}

#[test]
fn spec_example_full_session() {
    let d = Dictionary::new("pivo/SHORT\nauto/SHORT\ncivka/OK", 5);
    assert_eq!(d.word_count(), 1);
    assert!(d.contains("CIVKA"));

    let mut game = Game::new(6, &d);
    assert_eq!(game.get_correct_word(), "CIVKA");

    let r = game.submit_guess("guessed_word");
    assert_eq!(r.err().unwrap(), GuessError::WrongLength(12));

    let r = game.submit_guess("abcde");
    assert_eq!(r.err().unwrap(), GuessError::NotInDictionary);

    let g = game.submit_guess("civka").unwrap();
    assert!(g.is_correct);
    assert_eq!(g.green_positions, vec![0, 1, 2, 3, 4]);
    assert!(g.yellow_positions.is_empty());
    assert!(game.get_game_state() == GameState::Win(1));
}
