use vstd::prelude::*;

use crate::strategy::{all_green, is_all_green, EntropyStrategy};
use crate::words::{admitted, outcome, Word, Wordlist, WORD_LENGTH};

verus! {

/// The maximum number of allowed guesses per game.
pub const ALLOWED_GUESSES_PER_GAME: usize = 6;

/// The outcome of a guess for a single character tile.
#[derive(Clone, Copy, Debug, Hash, PartialEq, Eq, Structural)]
pub enum TileOutcome {
    /// The letter is absent (or all its copies are already accounted for).
    Gray,
    /// The letter occurs in the secret, at another position.
    Yellow,
    /// The letter is at the right position.
    Green,
}

/// A guess and its paired outcome (one tile per letter).
#[derive(Clone, Debug, Default)]
pub struct Guess {
    pub guess: Vec<char>,
    pub outcome: Vec<TileOutcome>,
}

impl Guess {
    /// Number of positions that carry both a letter and a tile.
    pub open spec fn span(&self) -> nat {
        if self.guess@.len() <= self.outcome@.len() {
            self.guess@.len()
        } else {
            self.outcome@.len()
        }
    }

    /// The letters paired with their tiles, position by position.
    pub fn paired_iter(&self) -> (r: Vec<(char, TileOutcome)>)
        ensures
            r@.len() == self.span(),
            forall|i: int| 0 <= i < r@.len() ==> #[trigger] r@[i] == (self.guess@[i], self.outcome@[i]),
    {
        let n: usize = if self.guess.len() <= self.outcome.len() {
            self.guess.len()
        } else {
            self.outcome.len()
        };
        let mut r: Vec<(char, TileOutcome)> = Vec::new();
        let mut i: usize = 0;
        while i < n
            invariant
                n == self.span(),
                i <= n,
                r@.len() == i,
                forall|j: int| 0 <= j < i ==> #[trigger] r@[j] == (self.guess@[j], self.outcome@[j]),
            decreases n - i,
        {
            r.push((self.guess[i], self.outcome[i]));
            i = i + 1;
        }
        r
    }
}

/// Where a game stands.
#[derive(Clone, Copy, Debug, PartialEq, Eq, Structural)]
pub enum GameState {
    NotStarted,
    InProgress,
    GuesserVictory,
    GuesserDefeat,
    Invalid,
}

/// Where a game stands, given whether its secret was chosen and the tiles of
/// the guesses made so far.
pub open spec fn state_of(started: bool, tiles: Seq<Seq<TileOutcome>>) -> GameState {
    if !started {
        GameState::NotStarted
    } else if tiles.len() == 0 {
        GameState::InProgress
    } else if all_green(tiles.last()) {
        GameState::GuesserVictory
    } else if tiles.len() >= ALLOWED_GUESSES_PER_GAME {
        GameState::GuesserDefeat
    } else {
        GameState::InProgress
    }
}

/// Once the secret is chosen and a guess was made, the game is won, lost or
/// in progress: it is never unstarted nor invalid. Once as many guesses were
/// made as a game allows, it is won or lost.
pub proof fn lemma_game_resolves(started: bool, tiles: Seq<Seq<TileOutcome>>)
    ensures
        started && tiles.len() >= 1 ==> state_of(started, tiles) != GameState::NotStarted
            && state_of(started, tiles) != GameState::Invalid,
        started && tiles.len() >= ALLOWED_GUESSES_PER_GAME ==> (state_of(started, tiles)
            == GameState::GuesserVictory || state_of(started, tiles) == GameState::GuesserDefeat),
{
}

/// A game: the secret (once chosen), the guesses made, the lists of answers
/// and of allowed guesses, and the strategy that follows the game.
pub struct Game {
    word: Option<Word>,
    guesses: Vec<Guess>,
    answerlist: Wordlist,
    guesslist: Wordlist,
    strategy: EntropyStrategy,
}

impl Game {
    /// A chosen secret has `WORD_LENGTH` letters.
    pub open spec fn well_formed(&self) -> bool {
        self.secret() matches Some(s) ==> s.len() == WORD_LENGTH
    }

    /// The secret's letters, once it is chosen.
    pub closed spec fn secret(&self) -> Option<Seq<char>> {
        match self.word {
            Some(w) => Some(w@),
            None => None,
        }
    }

    /// The tiles of each guess made, in order.
    pub closed spec fn tiles(&self) -> Seq<Seq<TileOutcome>> {
        self.guesses@.map_values(|g: Guess| g.outcome@)
    }

    /// The letters of each guess made, in order.
    pub closed spec fn guessed(&self) -> Seq<Seq<char>> {
        self.guesses@.map_values(|g: Guess| g.guess@)
    }

    /// The words the secret is drawn from.
    pub closed spec fn answers(&self) -> Seq<Seq<char>> {
        self.answerlist@
    }

    /// The words that may be guessed.
    pub closed spec fn allowed(&self) -> Seq<Seq<char>> {
        self.guesslist@
    }

    /// The strategy that follows the game.
    pub closed spec fn strategy_view(&self) -> EntropyStrategy {
        self.strategy
    }

    /// A game with no secret chosen yet, whose strategy may guess any word of
    /// `guesslist`.
    pub fn init(guesslist: Wordlist, answerlist: Wordlist) -> (r: Self)
        ensures
            r.well_formed(),
            r.secret() is None,
            r.tiles().len() == 0,
            r.answers() == answerlist@,
            r.allowed() == guesslist@,
            r.strategy_view().allowed() == guesslist@,
            r.strategy_view().candidates() == guesslist@,
            r.strategy_view().known().constraints@.len() == 0,
            r.strategy_view().known().must_contain@.len() == 0,
            r.strategy_view().known().disallowed == 0,
    {
        let strategy = EntropyStrategy::init(guesslist.duplicate());
        Game { word: None, guesses: Vec::new(), answerlist, guesslist, strategy }
    }

    /// Draws the secret at random from the answer list.
    pub fn choose_random_word(&mut self)
        requires
            old(self).answers().len() > 0,
        ensures
            final(self).well_formed(),
            final(self).secret() matches Some(s) && old(self).answers().contains(s),
            final(self).tiles() == old(self).tiles(),
            final(self).guessed() == old(self).guessed(),
            final(self).answers() == old(self).answers(),
            final(self).allowed() == old(self).allowed(),
            final(self).strategy_view() == old(self).strategy_view(),
    {
        let w = self.answerlist.random_word();
        match w {
            Some(w) => {
                self.word = Some(w);
            },
            None => {},
        }
    }

    /// Sets the secret to `word`, which must be in the guess list.
    pub fn choose_word(&mut self, word: &str)
        requires
            old(self).allowed().contains(word@),
        ensures
            final(self).well_formed(),
            final(self).secret() == Some(word@),
            final(self).tiles() == old(self).tiles(),
            final(self).guessed() == old(self).guessed(),
            final(self).answers() == old(self).answers(),
            final(self).allowed() == old(self).allowed(),
            final(self).strategy_view() == old(self).strategy_view(),
    {
        let w = self.guesslist.get_word(word);
        match w {
            Some(w) => {
                self.word = Some(w);
            },
            None => {},
        }
    }

    /// Plays `guess` against the secret: its tiles join the history and the
    /// strategy learns from them.
    pub fn make_guess(&mut self, guess: &Word)
        requires
            old(self).well_formed(),
            old(self).secret() is Some,
            guess@.len() == WORD_LENGTH,
        ensures
            final(self).well_formed(),
            final(self).tiles() == old(self).tiles().push(outcome(old(self).secret()->0, guess@)),
            final(self).guessed() == old(self).guessed().push(guess@),
            final(self).secret() == old(self).secret(),
            final(self).answers() == old(self).answers(),
            final(self).allowed() == old(self).allowed(),
            old(self).strategy_view().known().ingests(
                guess@,
                outcome(old(self).secret()->0, guess@),
                final(self).strategy_view().known(),
            ),
            final(self).strategy_view().candidates() == admitted(
                old(self).strategy_view().candidates(),
                final(self).strategy_view().known(),
            ),
            final(self).strategy_view().allowed() == old(self).strategy_view().allowed(),
    {
        let tiles = match &self.word {
            Some(w) => w.outcome_of_guess(guess),
            None => Vec::new(),
        };
        let realized = Guess { guess: guess.letters(), outcome: tiles };
        self.strategy.register_guess(&realized);
        let ghost before = self.guesses@;
        self.guesses.push(realized);
        proof {
            assert(self.guesses@.map_values(|g: Guess| g.outcome@) =~= before.map_values(
                |g: Guess| g.outcome@,
            ).push(realized.outcome@));
            assert(self.guesses@.map_values(|g: Guess| g.guess@) =~= before.map_values(
                |g: Guess| g.guess@,
            ).push(realized.guess@));
        }
    }

    /// Where the game stands.
    pub fn current_state(&self) -> (r: GameState)
        ensures
            r == state_of(self.secret() is Some, self.tiles()),
    {
        if self.word.is_none() {
            return GameState::NotStarted;
        }
        if self.guesses.len() == 0 {
            return GameState::InProgress;
        }
        let last = &self.guesses[self.guesses.len() - 1];
        proof {
            assert(self.tiles().last() == last.outcome@);
        }
        if is_all_green(&last.outcome) {
            GameState::GuesserVictory
        } else if self.guesses.len() >= ALLOWED_GUESSES_PER_GAME {
            GameState::GuesserDefeat
        } else {
            GameState::InProgress
        }
    }

    /// Whether the game has ended in a victory or a defeat of the guesser.
    pub fn is_over(&self) -> (r: bool)
        ensures
            r == (state_of(self.secret() is Some, self.tiles()) == GameState::GuesserVictory
                || state_of(self.secret() is Some, self.tiles()) == GameState::GuesserDefeat),
    {
        match self.current_state() {
            GameState::GuesserDefeat | GameState::GuesserVictory => true,
            _ => false,
        }
    }

    /// Number of guesses made.
    pub fn num_guesses(&self) -> (r: usize)
        ensures
            r == self.tiles().len(),
    {
        self.guesses.len()
    }

    /// The guesses made, with their tiles.
    pub fn guesses(&self) -> (r: &Vec<Guess>)
        ensures
            r@.map_values(|g: Guess| g.outcome@) == self.tiles(),
            r@.map_values(|g: Guess| g.guess@) == self.guessed(),
    {
        &self.guesses
    }

    /// The secret, once chosen.
    pub fn word(&self) -> (r: &Option<Word>)
        ensures
            r matches Some(w) ==> self.secret() == Some(w@),
            r is None <==> self.secret() is None,
    {
        &self.word
    }

    /// The strategy that follows the game.
    pub fn strategy(&self) -> (r: &EntropyStrategy)
        ensures
            *r == self.strategy_view(),
    {
        &self.strategy
    }

    /// The words that may be guessed.
    pub fn allowed_guesses(&self) -> (r: &Wordlist)
        ensures
            r@ == self.allowed(),
    {
        &self.guesslist
    }

    /// The candidates that the strategy still considers.
    pub fn extant_guesses(&self) -> (r: &Wordlist)
        ensures
            r@ == self.strategy_view().candidates(),
    {
        self.strategy.extant()
    }

    /// The list the secret is drawn from.
    pub fn answerlist(&self) -> (r: &Wordlist)
        ensures
            r@ == self.answers(),
    {
        &self.answerlist
    }

    /// The list of words that may be guessed.
    pub fn get_wordlist(&self) -> (r: &Wordlist)
        ensures
            r@ == self.allowed(),
    {
        &self.guesslist
    }
}

} // verus!
