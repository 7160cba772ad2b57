//! A single game session: the secret word, the per-guess evaluation that
//! classifies every position as exact (green), present-but-misplaced
//! (yellow) or absent, the append-only guess history, the cumulative
//! letter tracker, and the derived win/lose/ongoing status.

use vstd::prelude::*;

use crate::dictionary::Dictionary;
use crate::letters::Letters;
use crate::text::{char_count, chars_of, to_upper, upper_of, vec_contains_char};

verus! {

/// The record of one evaluated guess: the normalized candidate, whether
/// it equals the secret, and the positions classified green (exact) and
/// yellow (present elsewhere in the secret).
#[derive(Clone, Debug)]
pub struct Guess {
    pub is_correct: bool,
    pub word: String,
    pub yellow_positions: Vec<u32>,
    pub green_positions: Vec<u32>,
}

/// Why a submission was rejected; the session is unchanged in both cases.
#[derive(Debug, PartialEq, Eq, Structural)]
pub enum GuessError {
    /// The candidate is not in the dictionary.
    NotInDictionary,
    /// The candidate's character count (carried here) differs from the
    /// secret's length.
    WrongLength(u32),
}

/// The derived status of a session.
#[derive(Debug, PartialEq, Eq, Structural)]
pub enum GameState {
    /// Won after the carried number of guesses.
    Win(u32),
    /// The guess budget is exhausted and the last guess was wrong.
    Lose,
    /// Still running, with the carried number of guesses submitted.
    Ongoing(u32),
}

/// Position `i` is an exact match: the words agree there.
pub open spec fn green_at(secret: Seq<char>, word: Seq<char>, i: int) -> bool {
    secret[i] == word[i]
}

/// Position `i` is a present match: the words differ there, but the
/// guessed letter occurs somewhere in the secret. There is deliberately
/// no multiplicity cap: a letter of the candidate may be marked present
/// at several positions even if the secret holds it only once.
pub open spec fn yellow_at(secret: Seq<char>, word: Seq<char>, i: int) -> bool {
    secret[i] != word[i] && secret.contains(word[i])
}

/// The exact-match positions below `n`, in increasing order.
pub open spec fn green_positions_upto(secret: Seq<char>, word: Seq<char>, n: int) -> Seq<u32>
    decreases n,
{
    if n <= 0 {
        Seq::empty()
    } else {
        green_positions_upto(secret, word, n - 1) + (if green_at(secret, word, n - 1) {
            seq![(n - 1) as u32]
        } else {
            Seq::empty()
        })
    }
}

/// The present-match positions below `n`, in increasing order.
pub open spec fn yellow_positions_upto(secret: Seq<char>, word: Seq<char>, n: int) -> Seq<u32>
    decreases n,
{
    if n <= 0 {
        Seq::empty()
    } else {
        yellow_positions_upto(secret, word, n - 1) + (if yellow_at(secret, word, n - 1) {
            seq![(n - 1) as u32]
        } else {
            Seq::empty()
        })
    }
}

/// All exact-match positions of a guess against a secret.
pub open spec fn green_positions_of(secret: Seq<char>, word: Seq<char>) -> Seq<u32> {
    green_positions_upto(secret, word, secret.len() as int)
}

/// All present-match positions of a guess against a secret.
pub open spec fn yellow_positions_of(secret: Seq<char>, word: Seq<char>) -> Seq<u32> {
    yellow_positions_upto(secret, word, secret.len() as int)
}

/// The letters of `word` at positions below `n`.
pub open spec fn letters_upto(word: Seq<char>, n: int) -> Set<char> {
    Set::new(|c: char| exists|j: int| 0 <= j < n && word[j] == c)
}

/// The letters green-marked at positions below `n`.
pub open spec fn green_letters_upto(secret: Seq<char>, word: Seq<char>, n: int) -> Set<char> {
    Set::new(|c: char| exists|j: int| 0 <= j < n && green_at(secret, word, j) && word[j] == c)
}

/// The letters yellow-marked at positions below `n`.
pub open spec fn yellow_letters_upto(secret: Seq<char>, word: Seq<char>, n: int) -> Set<char> {
    Set::new(|c: char| exists|j: int| 0 <= j < n && yellow_at(secret, word, j) && word[j] == c)
}

/// The letters of `word` confirmed in a correct position.
pub open spec fn green_letters_of(secret: Seq<char>, word: Seq<char>) -> Set<char> {
    green_letters_upto(secret, word, secret.len() as int)
}

/// The letters of `word` confirmed present but misplaced.
pub open spec fn yellow_letters_of(secret: Seq<char>, word: Seq<char>) -> Set<char> {
    yellow_letters_upto(secret, word, secret.len() as int)
}

/// `g` is exactly the evaluation of the raw candidate `raw` against
/// `secret`: the stored word is the normalized candidate, the whole-word
/// verdict compares it with the secret, and the two position lists are
/// the green and yellow classifications.
pub open spec fn guess_for(g: Guess, secret: Seq<char>, raw: Seq<char>) -> bool {
    &&& g.word@ == upper_of(raw)
    &&& g.is_correct == (g.word@ == secret)
    &&& g.green_positions@ == green_positions_of(secret, g.word@)
    &&& g.yellow_positions@ == yellow_positions_of(secret, g.word@)
}

/// The status derived from a history and a try budget: a win as soon as
/// the last guess was correct, a loss once the budget is exhausted
/// without one, otherwise ongoing.
pub open spec fn state_of(history: Seq<Guess>, max_tries: u32) -> GameState {
    if history.len() > 0 && history.last().is_correct {
        GameState::Win(history.len() as u32)
    } else if history.len() == max_tries {
        GameState::Lose
    } else {
        GameState::Ongoing(history.len() as u32)
    }
}

/// One session: the secret, the try budget, the history and tracker, and
/// a shared read-only dictionary for membership checks.
pub struct Game<'d> {
    maximum_tries: u32,
    word_to_guess: String,
    guesses: Vec<Guess>,
    letters: Letters,
    dictionary: &'d Dictionary,
}

impl<'d> Game<'d> {
    /// The secret word (normalized when it came from a dictionary).
    pub closed spec fn secret(&self) -> Seq<char> {
        self.word_to_guess@
    }

    /// The submitted guesses, in submission order.
    pub closed spec fn history(&self) -> Seq<Guess> {
        self.guesses@
    }

    /// The try budget fixed at construction.
    pub closed spec fn max_tries(&self) -> u32 {
        self.maximum_tries
    }

    /// The cumulative letter tracker.
    pub closed spec fn tracker(&self) -> Letters {
        self.letters
    }

    /// The dictionary the session checks membership against.
    pub closed spec fn dict(&self) -> Dictionary {
        *self.dictionary
    }

    /// The secret is short enough for positions to fit in `u32`, and the
    /// tracker's backing vectors are duplicate-free.
    pub open spec fn wf(&self) -> bool {
        &&& self.secret().len() <= u32::MAX
        &&& self.tracker().wf()
    }

    /// Starts a session on a random word of the dictionary. The
    /// dictionary must be non-empty.
    pub fn new(maximum_tries: u32, dictionary: &'d Dictionary) -> (g: Game<'d>)
        requires
            dictionary.wf(),
            dictionary.words().len() > 0,
        ensures
            g.wf(),
            g.max_tries() == maximum_tries,
            g.history() == Seq::<Guess>::empty(),
            g.tracker().used_set() == Set::<char>::empty(),
            g.tracker().green_set() == Set::<char>::empty(),
            g.tracker().yellow_set() == Set::<char>::empty(),
            g.dict() == *dictionary,
            dictionary.words().contains(g.secret()),
            g.secret().len() == dictionary.spec_word_length(),
    {
        Game {
            maximum_tries,
            word_to_guess: dictionary.get_random_word(),
            guesses: Vec::new(),
            letters: Letters::new(),
            dictionary,
        }
    }

    /// Starts a session on a given secret word; lets a caller inject the
    /// word instead of drawing one, so that play is reproducible. The
    /// word is case-normalized like every word a dictionary stores.
    pub fn new_with_word(maximum_tries: u32, dictionary: &'d Dictionary, word: String) -> (g: Game<
        'd,
    >)
        ensures
            g.max_tries() == maximum_tries,
            g.history() == Seq::<Guess>::empty(),
            g.tracker().used_set() == Set::<char>::empty(),
            g.tracker().green_set() == Set::<char>::empty(),
            g.tracker().yellow_set() == Set::<char>::empty(),
            g.tracker().wf(),
            g.dict() == *dictionary,
            g.secret() == upper_of(word@),
            upper_of(word@).len() <= u32::MAX ==> g.wf(),
    {
        Game {
            maximum_tries,
            word_to_guess: to_upper(word.as_str()),
            guesses: Vec::new(),
            letters: Letters::new(),
            dictionary,
        }
    }

    /// The derived status of the session.
    pub fn get_game_state(&self) -> (r: GameState)
        requires
            self.history().len() <= u32::MAX,
        ensures
            r == state_of(self.history(), self.max_tries()),
    {
        let guess_count = self.guesses.len();
        let mut was_last_guess_winning = false;
        if guess_count > 0 {
            was_last_guess_winning = self.guesses[guess_count - 1].is_correct;
        }
        if was_last_guess_winning {
            return GameState::Win(guess_count as u32);
        }
        let are_guesses_depleted = guess_count == self.maximum_tries as usize;
        if are_guesses_depleted {
            GameState::Lose
        } else {
            GameState::Ongoing(guess_count as u32)
        }
    }

    /// The secret word. Deliberately unrestricted: the session does not
    /// check that the game has ended, the presentation layer is expected
    /// to withhold it until then.
    pub fn get_correct_word(&self) -> (r: String)
        ensures
            r@ == self.secret(),
    {
        self.word_to_guess.clone()
    }

    /// Evaluates a candidate. Rejects it, leaving the session untouched,
    /// when its character count differs from the secret's, then when the
    /// dictionary does not list it, and last — for a listed word whose
    /// count changes under case normalization, so that it cannot be
    /// scored position by position — with the length error again;
    /// otherwise evaluates it, appends the record to the history, updates
    /// the letter tracker, and returns the record. The tracker sets never
    /// shrink.
    pub fn submit_guess(&mut self, guessed_word: &str) -> (result: Result<Guess, GuessError>)
        requires
            old(self).wf(),
            guessed_word@.len() <= u32::MAX,
        ensures
            final(self).wf(),
            final(self).max_tries() == old(self).max_tries(),
            final(self).secret() == old(self).secret(),
            final(self).dict() == old(self).dict(),
            old(self).tracker().used_set().subset_of(final(self).tracker().used_set()),
            old(self).tracker().green_set().subset_of(final(self).tracker().green_set()),
            old(self).tracker().yellow_set().subset_of(final(self).tracker().yellow_set()),
            match result {
                Ok(g) => {
                    &&& guessed_word@.len() == old(self).secret().len()
                    &&& upper_of(guessed_word@).len() == old(self).secret().len()
                    &&& old(self).dict().word_set().contains(upper_of(guessed_word@))
                    &&& guess_for(g, old(self).secret(), guessed_word@)
                    &&& final(self).history().len() == old(self).history().len() + 1
                    &&& final(self).history().drop_last() == old(self).history()
                    &&& guess_for(
                        final(self).history().last(),
                        old(self).secret(),
                        guessed_word@,
                    )
                    &&& final(self).tracker().used_set() == old(self).tracker().used_set().union(
                        upper_of(guessed_word@).to_set(),
                    )
                    &&& final(self).tracker().green_set() == old(self).tracker().green_set().union(
                        green_letters_of(old(self).secret(), upper_of(guessed_word@)),
                    )
                    &&& final(self).tracker().yellow_set() == old(
                        self,
                    ).tracker().yellow_set().union(
                        yellow_letters_of(old(self).secret(), upper_of(guessed_word@)),
                    )
                },
                Err(e) => match e {
                    GuessError::WrongLength(m) => {
                        &&& (guessed_word@.len() != old(self).secret().len() || (old(
                            self,
                        ).dict().word_set().contains(upper_of(guessed_word@)) && upper_of(
                            guessed_word@,
                        ).len() != old(self).secret().len()))
                        &&& m == guessed_word@.len() as u32
                        &&& *final(self) == *old(self)
                    },
                    GuessError::NotInDictionary => {
                        &&& guessed_word@.len() == old(self).secret().len()
                        &&& !old(self).dict().word_set().contains(upper_of(guessed_word@))
                        &&& *final(self) == *old(self)
                    },
                },
            },
    {
        let guess_len = char_count(guessed_word);
        let secret_len = char_count(self.word_to_guess.as_str());
        if guess_len != secret_len {
            return Err(GuessError::WrongLength(guess_len as u32));
        }
        if !self.dictionary.contains(guessed_word) {
            return Err(GuessError::NotInDictionary);
        }
        let up = to_upper(guessed_word);
        let up_len = char_count(up.as_str());
        if up_len != secret_len {
            return Err(GuessError::WrongLength(guess_len as u32));
        }
        let guess = self.calculate_guess(guessed_word);
        let duplicate = Guess {
            is_correct: guess.is_correct,
            word: guess.word.clone(),
            yellow_positions: copy_positions(&guess.yellow_positions),
            green_positions: copy_positions(&guess.green_positions),
        };
        self.guesses.push(duplicate);
        proof {
            assert(self.guesses@.drop_last() =~= old(self).guesses@);
        }
        Ok(guess)
    }

    /// The cumulative letter tracker, read-only.
    pub fn get_letters(&self) -> (r: &Letters)
        ensures
            *r == self.tracker(),
    {
        &self.letters
    }

    /// The full history, in submission order, read-only.
    pub fn get_guesses(&self) -> (r: &Vec<Guess>)
        ensures
            r@ == self.history(),
    {
        &self.guesses
    }

    /// The try budget fixed at construction.
    pub fn get_maximum_tries(&self) -> (r: u32)
        ensures
            r == self.max_tries(),
    {
        self.maximum_tries
    }

    /// Appends a ready-made record to the history, leaving everything
    /// else untouched. The state machine is computed from the history and
    /// does not forbid appending past a terminal state; this is the same
    /// permissiveness `submit_guess` has after a win or a loss.
    pub fn push_guess(&mut self, guess: Guess)
        ensures
            final(self).history() == old(self).history().push(guess),
            final(self).secret() == old(self).secret(),
            final(self).max_tries() == old(self).max_tries(),
            final(self).tracker() == old(self).tracker(),
            final(self).dict() == old(self).dict(),
            final(self).wf() == old(self).wf(),
    {
        self.guesses.push(guess);
    }

    /// Evaluates the candidate against the secret in one left-to-right
    /// pass, recording green and yellow positions and feeding every
    /// letter into the tracker.
    fn calculate_guess(&mut self, guessed_word: &str) -> (g: Guess)
        requires
            old(self).wf(),
            upper_of(guessed_word@).len() == old(self).secret().len(),
        ensures
            final(self).wf(),
            guess_for(g, old(self).secret(), guessed_word@),
            final(self).word_to_guess == old(self).word_to_guess,
            final(self).maximum_tries == old(self).maximum_tries,
            final(self).guesses == old(self).guesses,
            final(self).dictionary == old(self).dictionary,
            final(self).letters.used_set() == old(self).letters.used_set().union(
                upper_of(guessed_word@).to_set(),
            ),
            final(self).letters.green_set() == old(self).letters.green_set().union(
                green_letters_of(old(self).secret(), upper_of(guessed_word@)),
            ),
            final(self).letters.yellow_set() == old(self).letters.yellow_set().union(
                yellow_letters_of(old(self).secret(), upper_of(guessed_word@)),
            ),
    {
        let word_up = to_upper(guessed_word);
        let is_correct = word_up == self.word_to_guess;
        let correct_letters = chars_of(self.word_to_guess.as_str());
        let guess_letters = chars_of(word_up.as_str());
        let ghost secret = self.word_to_guess@;
        let ghost word = word_up@;
        let ghost used0 = self.letters.used_set();
        let ghost green0 = self.letters.green_set();
        let ghost yellow0 = self.letters.yellow_set();
        let n = correct_letters.len();
        let mut green_positions: Vec<u32> = Vec::new();
        let mut yellow_positions: Vec<u32> = Vec::new();
        proof {
            assert(used0.union(letters_upto(word, 0)) =~= used0);
            assert(green0.union(green_letters_upto(secret, word, 0)) =~= green0);
            assert(yellow0.union(yellow_letters_upto(secret, word, 0)) =~= yellow0);
        }
        let mut i: usize = 0;
        while i < n
            invariant
                i <= n,
                n == secret.len(),
                n == word.len(),
                n <= u32::MAX,
                correct_letters@ == secret,
                guess_letters@ == word,
                self.letters.wf(),
                self.word_to_guess == old(self).word_to_guess,
                self.maximum_tries == old(self).maximum_tries,
                self.guesses == old(self).guesses,
                self.dictionary == old(self).dictionary,
                green_positions@ == green_positions_upto(secret, word, i as int),
                yellow_positions@ == yellow_positions_upto(secret, word, i as int),
                self.letters.used_set() == used0.union(letters_upto(word, i as int)),
                self.letters.green_set() == green0.union(green_letters_upto(secret, word, i as int)),
                self.letters.yellow_set() == yellow0.union(
                    yellow_letters_upto(secret, word, i as int),
                ),
            decreases n - i,
        {
            let correct_char = correct_letters[i];
            let guess_char = guess_letters[i];
            self.letters.add_used_letter(guess_char);
            proof {
                lemma_letters_upto_step(word, i as int);
                assert(used0.union(letters_upto(word, i + 1)) =~= used0.union(
                    letters_upto(word, i as int),
                ).insert(word[i as int]));
            }
            if correct_char == guess_char {
                green_positions.push(i as u32);
                self.letters.add_green_letter(guess_char);
                proof {
                    assert(green_positions@ =~= green_positions_upto(secret, word, i as int)
                        + seq![i as u32]);
                    assert(green_positions@ == green_positions_upto(secret, word, i + 1));
                    lemma_green_letters_step(secret, word, i as int);
                    assert(green0.union(green_letters_upto(secret, word, i + 1)) =~= green0.union(
                        green_letters_upto(secret, word, i as int),
                    ).insert(word[i as int]));
                    assert(!yellow_at(secret, word, i as int));
                    assert(yellow_positions@ =~= yellow_positions_upto(secret, word, i + 1));
                    lemma_yellow_letters_step(secret, word, i as int);
                    assert(yellow0.union(yellow_letters_upto(secret, word, i + 1)) =~= yellow0.union(
                        yellow_letters_upto(secret, word, i as int),
                    ));
                }
            } else if vec_contains_char(&correct_letters, guess_char) {
                yellow_positions.push(i as u32);
                self.letters.add_yellow_letter(guess_char);
                proof {
                    assert(yellow_at(secret, word, i as int));
                    assert(yellow_positions@ =~= yellow_positions_upto(secret, word, i as int)
                        + seq![i as u32]);
                    assert(yellow_positions@ == yellow_positions_upto(secret, word, i + 1));
                    lemma_yellow_letters_step(secret, word, i as int);
                    assert(yellow0.union(yellow_letters_upto(secret, word, i + 1)) =~= yellow0.union(
                        yellow_letters_upto(secret, word, i as int),
                    ).insert(word[i as int]));
                    assert(!green_at(secret, word, i as int));
                    assert(green_positions@ =~= green_positions_upto(secret, word, i + 1));
                    lemma_green_letters_step(secret, word, i as int);
                    assert(green0.union(green_letters_upto(secret, word, i + 1)) =~= green0.union(
                        green_letters_upto(secret, word, i as int),
                    ));
                }
            } else {
                proof {
                    assert(!green_at(secret, word, i as int));
                    assert(!yellow_at(secret, word, i as int));
                    assert(green_positions@ =~= green_positions_upto(secret, word, i + 1));
                    assert(yellow_positions@ =~= yellow_positions_upto(secret, word, i + 1));
                    lemma_green_letters_step(secret, word, i as int);
                    assert(green0.union(green_letters_upto(secret, word, i + 1)) =~= green0.union(
                        green_letters_upto(secret, word, i as int),
                    ));
                    lemma_yellow_letters_step(secret, word, i as int);
                    assert(yellow0.union(yellow_letters_upto(secret, word, i + 1)) =~= yellow0.union(
                        yellow_letters_upto(secret, word, i as int),
                    ));
                }
            }
            i += 1;
        }
        proof {
            lemma_letters_upto_all(word);
            assert(used0.union(letters_upto(word, word.len() as int)) =~= used0.union(
                word.to_set(),
            ));
        }
        Guess {
            is_correct,
            word: word_up,
            yellow_positions,
            green_positions,
        }
    }
}

/// Adding the letter at position `i` extends the letter set of the
/// prefix by exactly that letter.
proof fn lemma_letters_upto_step(word: Seq<char>, i: int)
    requires
        0 <= i < word.len(),
    ensures
        letters_upto(word, i + 1) =~= letters_upto(word, i).insert(word[i]),
{
    assert forall|c: char| letters_upto(word, i + 1).contains(c) implies letters_upto(
        word,
        i,
    ).insert(word[i]).contains(c) by {
        let j = choose|j: int| 0 <= j < i + 1 && word[j] == c;
        if j < i {
            assert(letters_upto(word, i).contains(c));
        }
    }
    assert forall|c: char| letters_upto(word, i).insert(word[i]).contains(c) implies letters_upto(
        word,
        i + 1,
    ).contains(c) by {
        if letters_upto(word, i).contains(c) {
            let j = choose|j: int| 0 <= j < i && word[j] == c;
            assert(0 <= j < i + 1 && word[j] == c);
        } else {
            assert(word[i] == c);
        }
    }
}

/// One evaluation step's effect on the green letter set: it gains the
/// letter at `i` when that position is green, and is otherwise unchanged.
proof fn lemma_green_letters_step(secret: Seq<char>, word: Seq<char>, i: int)
    requires
        0 <= i < word.len(),
    ensures
        green_at(secret, word, i) ==> green_letters_upto(secret, word, i + 1)
            =~= green_letters_upto(secret, word, i).insert(word[i]),
        !green_at(secret, word, i) ==> green_letters_upto(secret, word, i + 1)
            =~= green_letters_upto(secret, word, i),
{
    assert forall|c: char| green_letters_upto(secret, word, i + 1).contains(c) implies (
    green_letters_upto(secret, word, i).contains(c) || (green_at(secret, word, i) && word[i]
        == c)) by {
        let j = choose|j: int| 0 <= j < i + 1 && green_at(secret, word, j) && word[j] == c;
        if j < i {
            assert(green_letters_upto(secret, word, i).contains(c));
        }
    }
    assert forall|c: char| green_letters_upto(secret, word, i).contains(c) implies
    green_letters_upto(secret, word, i + 1).contains(c) by {
        let j = choose|j: int| 0 <= j < i && green_at(secret, word, j) && word[j] == c;
        assert(0 <= j < i + 1 && green_at(secret, word, j) && word[j] == c);
    }
    if green_at(secret, word, i) {
        assert(green_letters_upto(secret, word, i + 1).contains(word[i])) by {
            assert(0 <= i < i + 1 && green_at(secret, word, i) && word[i] == word[i]);
        }
    }
}

/// One evaluation step's effect on the yellow letter set.
proof fn lemma_yellow_letters_step(secret: Seq<char>, word: Seq<char>, i: int)
    requires
        0 <= i < word.len(),
    ensures
        yellow_at(secret, word, i) ==> yellow_letters_upto(secret, word, i + 1)
            =~= yellow_letters_upto(secret, word, i).insert(word[i]),
        !yellow_at(secret, word, i) ==> yellow_letters_upto(secret, word, i + 1)
            =~= yellow_letters_upto(secret, word, i),
{
    assert forall|c: char| yellow_letters_upto(secret, word, i + 1).contains(c) implies (
    yellow_letters_upto(secret, word, i).contains(c) || (yellow_at(secret, word, i) && word[i]
        == c)) by {
        let j = choose|j: int| 0 <= j < i + 1 && yellow_at(secret, word, j) && word[j] == c;
        if j < i {
            assert(yellow_letters_upto(secret, word, i).contains(c));
        }
    }
    assert forall|c: char| yellow_letters_upto(secret, word, i).contains(c) implies
    yellow_letters_upto(secret, word, i + 1).contains(c) by {
        let j = choose|j: int| 0 <= j < i && yellow_at(secret, word, j) && word[j] == c;
        assert(0 <= j < i + 1 && yellow_at(secret, word, j) && word[j] == c);
    }
    if yellow_at(secret, word, i) {
        assert(yellow_letters_upto(secret, word, i + 1).contains(word[i])) by {
            assert(0 <= i < i + 1 && yellow_at(secret, word, i) && word[i] == word[i]);
        }
    }
}

/// The letter set of the whole word is the set of its characters.
proof fn lemma_letters_upto_all(word: Seq<char>)
    ensures
        letters_upto(word, word.len() as int) =~= word.to_set(),
{
    assert forall|c: char| letters_upto(word, word.len() as int).contains(c) implies
    word.to_set().contains(c) by {
        let j = choose|j: int| 0 <= j < word.len() && word[j] == c;
        assert(word.contains(c));
    }
    assert forall|c: char| word.to_set().contains(c) implies letters_upto(
        word,
        word.len() as int,
    ).contains(c) by {
        assert(word.contains(c));
        let j = choose|j: int| 0 <= j < word.len() && word[j] == c;
        assert(0 <= j < word.len() && word[j] == c);
    }
}

/// Against itself, every position of a word is green and none yellow.
proof fn lemma_all_green_upto(secret: Seq<char>, n: int)
    requires
        0 <= n <= secret.len(),
        secret.len() <= u32::MAX,
    ensures
        green_positions_upto(secret, secret, n) =~= Seq::new(n as nat, |i: int| i as u32),
        yellow_positions_upto(secret, secret, n) =~= Seq::<u32>::empty(),
    decreases n,
{
    if n > 0 {
        lemma_all_green_upto(secret, n - 1);
        assert(green_at(secret, secret, n - 1));
        assert(!yellow_at(secret, secret, n - 1));
        assert(green_positions_upto(secret, secret, n) =~= Seq::new(
            (n - 1) as nat,
            |i: int| i as u32,
        ) + seq![(n - 1) as u32]);
    }
}

/// A candidate that equals the secret after normalization is marked
/// correct, every position is an exact match, and no position is a
/// present match.
pub proof fn lemma_exact_guess_all_green(g: Guess, secret: Seq<char>, raw: Seq<char>)
    requires
        guess_for(g, secret, raw),
        upper_of(raw) == secret,
        secret.len() <= u32::MAX,
    ensures
        g.is_correct,
        g.green_positions@ == Seq::new(secret.len(), |i: int| i as u32),
        g.green_positions@.len() == secret.len(),
        forall|j: int| 0 <= j < secret.len() ==> g.green_positions@[j] == j as u32,
        g.yellow_positions@ == Seq::<u32>::empty(),
{
    lemma_all_green_upto(secret, secret.len() as int);
}

/// A position list built by `green_positions_upto` holds exactly the
/// green positions below `n`.
proof fn lemma_green_upto_contains(secret: Seq<char>, word: Seq<char>, n: int, v: u32)
    requires
        0 <= n <= u32::MAX,
    ensures
        green_positions_upto(secret, word, n).contains(v) <==> ((v as int) < n && green_at(
            secret,
            word,
            v as int,
        )),
    decreases n,
{
    if n > 0 {
        lemma_green_upto_contains(secret, word, n - 1, v);
        let prev = green_positions_upto(secret, word, n - 1);
        let cur = green_positions_upto(secret, word, n);
        if cur.contains(v) {
            let k = choose|k: int| 0 <= k < cur.len() && cur[k] == v;
            if k < prev.len() {
                assert(prev[k] == v);
                assert(prev.contains(v));
            } else {
                assert(green_at(secret, word, n - 1));
                assert(v == (n - 1) as u32);
            }
        }
        if prev.contains(v) {
            let k = choose|k: int| 0 <= k < prev.len() && prev[k] == v;
            assert(cur[k] == v);
            assert(cur.contains(v));
        }
        if green_at(secret, word, n - 1) && v == (n - 1) as u32 {
            assert(cur[prev.len() as int] == v);
            assert(cur.contains(v));
        }
    }
}

/// A position list built by `yellow_positions_upto` holds exactly the
/// yellow positions below `n`.
proof fn lemma_yellow_upto_contains(secret: Seq<char>, word: Seq<char>, n: int, v: u32)
    requires
        0 <= n <= u32::MAX,
    ensures
        yellow_positions_upto(secret, word, n).contains(v) <==> ((v as int) < n && yellow_at(
            secret,
            word,
            v as int,
        )),
    decreases n,
{
    if n > 0 {
        lemma_yellow_upto_contains(secret, word, n - 1, v);
        let prev = yellow_positions_upto(secret, word, n - 1);
        let cur = yellow_positions_upto(secret, word, n);
        if cur.contains(v) {
            let k = choose|k: int| 0 <= k < cur.len() && cur[k] == v;
            if k < prev.len() {
                assert(prev[k] == v);
                assert(prev.contains(v));
            } else {
                assert(yellow_at(secret, word, n - 1));
                assert(v == (n - 1) as u32);
            }
        }
        if prev.contains(v) {
            let k = choose|k: int| 0 <= k < prev.len() && prev[k] == v;
            assert(cur[k] == v);
            assert(cur.contains(v));
        }
        if yellow_at(secret, word, n - 1) && v == (n - 1) as u32 {
            assert(cur[prev.len() as int] == v);
            assert(cur.contains(v));
        }
    }
}

/// The classification of positions is a partition: the green list holds
/// an index exactly when the words agree there, the yellow list exactly
/// when they differ there but the letter occurs in the secret, no index
/// is in both lists, and every index is green, yellow or neither.
pub proof fn lemma_positions_partition(g: Guess, secret: Seq<char>, raw: Seq<char>, j: int)
    requires
        guess_for(g, secret, raw),
        secret.len() <= u32::MAX,
        0 <= j < secret.len(),
    ensures
        g.green_positions@.contains(j as u32) <==> green_at(secret, g.word@, j),
        g.yellow_positions@.contains(j as u32) <==> yellow_at(secret, g.word@, j),
        !(green_at(secret, g.word@, j) && yellow_at(secret, g.word@, j)),
        !(g.green_positions@.contains(j as u32) && g.yellow_positions@.contains(j as u32)),
{
    lemma_green_upto_contains(secret, g.word@, secret.len() as int, j as u32);
    lemma_yellow_upto_contains(secret, g.word@, secret.len() as int, j as u32);
}

/// Entries of `green_positions_upto` lie below `n` and increase
/// strictly.
proof fn lemma_green_upto_ordered(secret: Seq<char>, word: Seq<char>, n: int)
    requires
        0 <= n <= u32::MAX,
    ensures
        forall|k: int|
            0 <= k < green_positions_upto(secret, word, n).len() ==> (#[trigger] green_positions_upto(
                secret,
                word,
                n,
            )[k] as int) < n,
        forall|k1: int, k2: int|
            0 <= k1 < k2 < green_positions_upto(secret, word, n).len() ==> green_positions_upto(
                secret,
                word,
                n,
            )[k1] < green_positions_upto(secret, word, n)[k2],
    decreases n,
{
    if n > 0 {
        lemma_green_upto_ordered(secret, word, n - 1);
        let prev = green_positions_upto(secret, word, n - 1);
        let cur = green_positions_upto(secret, word, n);
        assert(forall|k: int| 0 <= k < prev.len() ==> cur[k] == prev[k]);
        if green_at(secret, word, n - 1) {
            assert(cur[cur.len() - 1] == (n - 1) as u32);
        }
    }
}

/// Entries of `yellow_positions_upto` lie below `n` and increase
/// strictly.
proof fn lemma_yellow_upto_ordered(secret: Seq<char>, word: Seq<char>, n: int)
    requires
        0 <= n <= u32::MAX,
    ensures
        forall|k: int|
            0 <= k < yellow_positions_upto(secret, word, n).len() ==> (#[trigger] yellow_positions_upto(
                secret,
                word,
                n,
            )[k] as int) < n,
        forall|k1: int, k2: int|
            0 <= k1 < k2 < yellow_positions_upto(secret, word, n).len() ==> yellow_positions_upto(
                secret,
                word,
                n,
            )[k1] < yellow_positions_upto(secret, word, n)[k2],
    decreases n,
{
    if n > 0 {
        lemma_yellow_upto_ordered(secret, word, n - 1);
        let prev = yellow_positions_upto(secret, word, n - 1);
        let cur = yellow_positions_upto(secret, word, n);
        assert(forall|k: int| 0 <= k < prev.len() ==> cur[k] == prev[k]);
        if yellow_at(secret, word, n - 1) {
            assert(cur[cur.len() - 1] == (n - 1) as u32);
        }
    }
}

/// The recorded position lists are well formed: every entry is an index
/// of the word (below the secret's length), and each list is strictly
/// increasing, so no position is recorded twice.
pub proof fn lemma_positions_well_formed(g: Guess, secret: Seq<char>, raw: Seq<char>)
    requires
        guess_for(g, secret, raw),
        secret.len() <= u32::MAX,
    ensures
        forall|k: int|
            0 <= k < g.green_positions@.len() ==> (#[trigger] g.green_positions@[k] as int)
                < secret.len(),
        forall|k1: int, k2: int|
            0 <= k1 < k2 < g.green_positions@.len() ==> g.green_positions@[k1]
                < g.green_positions@[k2],
        forall|k: int|
            0 <= k < g.yellow_positions@.len() ==> (#[trigger] g.yellow_positions@[k] as int)
                < secret.len(),
        forall|k1: int, k2: int|
            0 <= k1 < k2 < g.yellow_positions@.len() ==> g.yellow_positions@[k1]
                < g.yellow_positions@[k2],
{
    lemma_green_upto_ordered(secret, g.word@, secret.len() as int);
    lemma_yellow_upto_ordered(secret, g.word@, secret.len() as int);
}

/// The derived status, characterized: `Win(n)` exactly when the last of
/// the `n` guesses so far was correct; otherwise `Lose` exactly when the
/// try budget is used up; otherwise `Ongoing` with the current count.
pub proof fn lemma_state_characterization(history: Seq<Guess>, max_tries: u32)
    requires
        history.len() <= u32::MAX,
    ensures
        state_of(history, max_tries) is Win <==> (history.len() > 0 && history.last().is_correct),
        state_of(history, max_tries) is Win ==> state_of(history, max_tries) == GameState::Win(
            history.len() as u32,
        ),
        state_of(history, max_tries) is Lose <==> (history.len() == max_tries && !(history.len()
            > 0 && history.last().is_correct)),
        state_of(history, max_tries) is Ongoing <==> (history.len() != max_tries && !(history.len()
            > 0 && history.last().is_correct)),
        state_of(history, max_tries) is Ongoing ==> state_of(history, max_tries)
            == GameState::Ongoing(history.len() as u32),
{
}

/// Copies a vector of positions.
fn copy_positions(v: &Vec<u32>) -> (r: Vec<u32>)
    ensures
        r@ == v@,
{
    let mut r: Vec<u32> = Vec::new();
    let mut k: usize = 0;
    while k < v.len()
        invariant
            k <= v@.len(),
            r@ == v@.take(k as int),
        decreases v@.len() - k,
    {
        r.push(v[k]);
        k += 1;
        proof {
            assert(r@ =~= v@.take(k as int));
        }
    }
    proof {
        assert(v@.take(v@.len() as int) =~= v@);
    }
    r
}

} // verus!

