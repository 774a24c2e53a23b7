use crustacean_wordle::game::{Game, GameState, Guess, TileOutcome};
use crustacean_wordle::strategy::{is_all_green, select_best, EntropyStrategy, OutcomeClass};
use crustacean_wordle::words::{Word, Wordlist};

fn list(words: &[&str]) -> Wordlist {
    Wordlist::from_words(words.iter().map(|w| Word::from(*w)).collect())
}

fn order_key(x: f64) -> u64 {
    let bits = x.to_bits();
    if bits >> 63 == 1 {
        !bits
    } else {
        bits | (1 << 63)
    }
}

fn gain(classes: &[OutcomeClass], extant: usize) -> f64 {
    let current = (extant as f64).log2();
    classes
        .iter()
        .map(|c| {
            let after = if c.decisive { -1000.0 } else { (c.remaining as f64).log2() };
            (c.count as f64) * (current - after)
        })
        .sum()
}

fn best_guess(s: &EntropyStrategy) -> Option<Word> {
    let extant = s.extant().len();
    let keys: Vec<u64> = s
        .guesslist()
        .possible_words()
        .iter()
        .map(|g| order_key(gain(&s.partition(g), extant)))
        .collect();
    s.chosen_guess_from(&keys)
}

#[test]
fn first_largest_gain_wins() {
    assert_eq!(select_best(&vec![]), None);
    assert_eq!(select_best(&vec![3, 7, 7, 1]), Some(1));
    assert_eq!(select_best(&vec![9]), Some(0));
    assert_eq!(select_best(&vec![2, 2, 2]), Some(0));
    assert_eq!(select_best(&vec![1, 2, 3]), Some(2));
}

#[test]
fn partition_groups_candidates() {
    let s = EntropyStrategy::init(list(&["crane", "crate", "trace", "caret"]));
    let classes = s.partition(&Word::from("crate"));
    let total: usize = classes.iter().map(|c| c.count).sum();
    assert_eq!(total, 4);
    assert_eq!(classes.len(), 4);
    assert_eq!(
        classes[0].outcome,
        vec![
            TileOutcome::Green,
            TileOutcome::Green,
            TileOutcome::Green,
            TileOutcome::Gray,
            TileOutcome::Green,
        ]
    );
    assert_eq!(classes[1].outcome, vec![TileOutcome::Green; 5]);
    for c in &classes {
        assert_eq!(c.count, 1);
        assert_eq!(c.remaining, 1);
        assert!(!c.decisive);
    }
}

#[test]
fn partition_single_candidate_is_decisive() {
    let mut s = EntropyStrategy::init(list(&["crane", "crate"]));
    s.register_guess(&Guess {
        guess: vec!['c', 'r', 'a', 't', 'e'],
        outcome: vec![TileOutcome::Green; 5],
    });
    assert_eq!(s.extant().len(), 1);
    let classes = s.partition(&Word::from("crate"));
    assert_eq!(classes.len(), 1);
    assert!(classes[0].decisive);
    let classes = s.partition(&Word::from("crane"));
    assert_eq!(classes.len(), 1);
    assert!(!classes[0].decisive);
    assert_eq!(best_guess(&s).map(|w| w.get_word()), Some("crate".to_string()));
}

#[test]
fn register_guess_narrows_candidates() {
    let mut s = EntropyStrategy::init(list(&["crane", "crate", "trace", "brace"]));
    assert_eq!(s.extant_guesses().len(), 4);
    let tiles = Word::from("trace").outcome_of_guess(&Word::from("brace"));
    s.register_guess(&Guess {
        guess: vec!['b', 'r', 'a', 'c', 'e'],
        outcome: tiles,
    });
    let left: Vec<String> = s.extant_guesses().iter().map(|w| w.get_word()).collect();
    assert_eq!(left, vec!["trace"]);
    assert_eq!(s.guesslist().len(), 4);
    assert_eq!(s.knowledge().constraints.len(), 5);
}

#[test]
fn empty_guess_list_gives_no_guess() {
    let s = EntropyStrategy::init(list(&[]));
    assert!(best_guess(&s).is_none());
    assert!(is_all_green(&vec![]));
    assert!(!is_all_green(&vec![TileOutcome::Yellow]));
}

#[test]
fn game_states_follow_the_guesses() {
    let words = list(&["crane", "crate", "trace", "brace", "grace"]);
    let mut game = Game::init(words.duplicate(), words);
    assert_eq!(game.current_state(), GameState::NotStarted);
    assert!(!game.is_over());
    game.choose_word("grace");
    assert_eq!(game.current_state(), GameState::InProgress);
    game.make_guess(&Word::from("crane"));
    assert_eq!(game.current_state(), GameState::InProgress);
    assert_eq!(game.num_guesses(), 1);
    game.make_guess(&Word::from("grace"));
    assert_eq!(game.current_state(), GameState::GuesserVictory);
    assert!(game.is_over());
}

#[test]
fn six_misses_lose() {
    let words = list(&["crane", "crate", "trace", "brace", "grace"]);
    let mut game = Game::init(words.duplicate(), words);
    game.choose_word("grace");
    for _ in 0..6 {
        game.make_guess(&Word::from("crane"));
    }
    assert_eq!(game.current_state(), GameState::GuesserDefeat);
    assert!(game.is_over());
}

#[test]
fn strategy_game_ends_within_six_guesses() {
    let words = list(&[
        "crane", "crate", "trace", "brace", "grace", "caret", "react", "slate", "stale", "least",
        "steal", "tales",
    ]);
    let mut game = Game::init(words.duplicate(), words);
    game.choose_word("steal");
    game.make_guess(&Word::from("crane"));
    while !game.is_over() {
        let guess = best_guess(game.strategy()).expect("a guess");
        game.make_guess(&guess);
        let state = game.current_state();
        assert!(state != GameState::Invalid && state != GameState::NotStarted);
    }
    let state = game.current_state();
    assert!(state == GameState::GuesserVictory || state == GameState::GuesserDefeat);
    assert!(game.num_guesses() <= 6);
}

#[test]
fn no_candidate_left_gives_no_guess() {
    let mut s = EntropyStrategy::init(list(&["crane", "crate"]));
    s.register_guess(&Guess {
        guess: vec!['c', 'r', 'a', 'n', 'e'],
        outcome: vec![TileOutcome::Gray; 5],
    });
    assert_eq!(s.extant().len(), 0);
    assert_eq!(s.guesslist().len(), 2);
    assert!(s.chosen_guess_from(&vec![0, 0]).is_none());
    assert!(best_guess(&s).is_none());
}
