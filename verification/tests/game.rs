use wordle::dictionary::Dictionary;
use wordle::game::{Game, GameState, Guess, GuessError};

fn empty_guess(is_correct: bool, word: &str) -> Guess {
    Guess {
        is_correct,
        word: word.to_string(),
        yellow_positions: Vec::new(),
        green_positions: Vec::new(),
    }
}

#[test]
fn game_creation() {
    let words = "pivo/SHORT\nauto/SHORT\ncivka/OK\nmicha/OK";
    let d = Dictionary::new(words, 5);

    let game = Game::new(6, &d);

    assert_eq!(game.get_maximum_tries(), 6);
    assert_eq!(game.get_correct_word().chars().count(), 5);
    assert_eq!(game.get_guesses().len(), 0);
}

#[test]
fn get_game_state_after_all_guesses_are_depleted() {
    let words = "pivo/SHORT\nauto/SHORT\ncivka/OK\nmicha/OK";
    let d = Dictionary::new(words, 5);
    let mut game = Game::new(6, &d);

    let state = game.get_game_state();
    assert!(state == GameState::Ongoing(0));

    game.push_guess(empty_guess(false, "TEST"));

    let state = game.get_game_state();
    assert!(state == GameState::Ongoing(1));

    for _ in 0..5 {
        game.push_guess(empty_guess(false, "TEST"));
    }

    let state = game.get_game_state();
    assert!(state == GameState::Lose);
}

#[test]
fn get_game_state_after_correct_guess() {
    let words = "pivo/SHORT\nauto/SHORT\ncivka/OK\nmicha/OK";
    let d = Dictionary::new(words, 5);
    let mut game = Game::new(6, &d);

    let state = game.get_game_state();
    assert!(state == GameState::Ongoing(0));

    let secret = game.get_correct_word();
    game.push_guess(empty_guess(true, &secret));

    let state = game.get_game_state();
    assert!(state == GameState::Win(1));
}

#[test]
fn get_correct_word() {
    let words = "pivo/SHORT\nauto/SHORT\ncivka/OK";
    let d = Dictionary::new(words, 5);
    let game = Game::new(6, &d);

    assert_eq!(game.get_correct_word(), "CIVKA");
}

#[test]
fn submit_guess_guess_is_correct() {
    let words = "pivo/SHORT\nauto/SHORT\ncivka/OK";
    let d = Dictionary::new(words, 5);
    let mut game = Game::new(6, &d);

    let error_length = game.submit_guess("guessed_word");
    assert!(error_length.is_err());
    assert_eq!(error_length.err().unwrap(), GuessError::WrongLength(12));

    let error_not_in_dict = game.submit_guess("abcde");
    assert!(error_not_in_dict.is_err());
    assert_eq!(
        error_not_in_dict.err().unwrap(),
        GuessError::NotInDictionary
    );

    let works = game.submit_guess("civka");
    assert!(works.is_ok());
    let g = works.unwrap();
    assert_eq!(g.word, "CIVKA");
    assert_eq!(g.green_positions.len(), 5);
    assert!(g.is_correct);
    assert_eq!(game.get_guesses().len(), 1);
}

#[test]
fn submit_guess_guess_is_not_correct() {
    let words = "pivo/SHORT\nauto/SHORT\ncivka/OK\nxyzya/OK";
    let d = Dictionary::new(words, 5);
    let mut game = Game::new_with_word(6, &d, "civka".to_uppercase());

    let works = game.submit_guess("xyzya");
    assert!(works.is_ok());
    let g = works.unwrap();
    assert_eq!(g.word, "XYZYA");
    assert_eq!(g.green_positions.len(), 1); // only 'A' at the end is correct
    assert!(!g.is_correct);
}
