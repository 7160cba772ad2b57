use wordle::dictionary::Dictionary;

#[test]
fn dictionary_creation() {
    let words = "pivo/SHORT\nauto/SHORT\ncivka/OK\nmicha/OK";
    let d = Dictionary::new(words, 5);
    assert_eq!(d.word_count(), 2);
    assert_eq!(d.distinct_word_count(), 2);
}

#[test]
fn get_random_word() {
    let words = "pivo/SHORT\nauto/SHORT\ncivka/OK\nmicha/OK";
    let d = Dictionary::new(words, 5);

    let mut r = d.get_random_word();
    assert!(r == "civka".to_uppercase() || r == "micha".to_uppercase());

    r = d.get_random_word();
    assert!(r == "civka".to_uppercase() || r == "micha".to_uppercase());
}

#[test]
fn contains() {
    let words = "pivo/SHORT\nauto/SHORT\ncivka/OK\nmicha/OK";
    let d = Dictionary::new(words, 5);

    assert!(!d.contains("word"));
    assert!(!d.contains("wordle"));

    assert!(d.contains("civka"));
    assert!(d.contains("micha"));
}

#[test]
fn empty_text_gives_empty_dictionary() {
    let d = Dictionary::new("", 5);
    assert_eq!(d.word_count(), 0);
    assert_eq!(d.distinct_word_count(), 0);
    assert!(!d.contains(""));
    assert!(!d.contains("civka"));
}

#[test]
fn duplicate_lines_stay_in_list_but_not_in_set() {
    let d = Dictionary::new("civka/OK\ncivka/OK", 5);
    assert_eq!(d.word_count(), 2);
    assert_eq!(d.distinct_word_count(), 1);
    assert!(d.contains("civka"));
}

#[test]
fn uppercase_initial_is_filtered_out() {
    let d = Dictionary::new("civka/OK\nMicha/OK", 5);
    assert_eq!(d.word_count(), 1);
    assert!(d.contains("civka"));
    assert!(!d.contains("micha"));
    assert!(!d.contains("Micha"));
}

#[test]
fn whitespace_is_trimmed_before_the_length_check() {
    let d = Dictionary::new("  civka  /OK\n auto ", 5);
    assert_eq!(d.word_count(), 1);
    assert!(d.contains("civka"));
    assert!(!d.contains("auto"));
}

#[test]
fn membership_is_case_insensitive() {
    let d = Dictionary::new("civka/OK", 5);
    assert!(d.contains("civka"));
    assert!(d.contains("CIVKA"));
    assert!(d.contains("CiVkA"));
}

#[test]
fn round_trip_keeps_exactly_the_matching_lines() {
    let text = "pivo/SHORT\nauto/SHORT\ncivka/OK\nmicha/OK\nwordle/LONG";
    let d = Dictionary::new(text, 5);
    assert_eq!(d.word_count(), 2);
    assert_eq!(d.distinct_word_count(), 2);
    assert!(d.contains("civka"));
    assert!(d.contains("micha"));
    assert!(!d.contains("pivo"));
    assert!(!d.contains("auto"));
    assert!(!d.contains("wordle"));
    assert_eq!(d.get_word_length(), 5);
}
