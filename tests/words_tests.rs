use crustacean_wordle::bitmask::{CanConvertToLetterBitmask, CanRepresentLetterBitmask, LetterBitmask};
use crustacean_wordle::game::{Guess, TileOutcome};
use crustacean_wordle::pattern::{Pattern, PlaceConstraint};
use crustacean_wordle::words::{Word, Wordlist};

fn list(words: &[&str]) -> Wordlist {
    Wordlist::from_words(words.iter().map(|w| Word::from(*w)).collect())
}

fn spelled(list: &Wordlist) -> Vec<String> {
    list.possible_words().iter().map(|w| w.get_word()).collect()
}

#[test]
fn test_matches() {
    let pattern = Pattern {
        disallowed: LetterBitmask::compute_bitmask(&vec!['a', 'b', 'c']),
        must_contain: vec![('d', 2_usize), ('e', 1_usize)],
        constraints: vec![
            Some(PlaceConstraint::IsChar('d')),
            Some(PlaceConstraint::IsNotChars(vec!['d', 'e'].to_letter_bitmask())),
            Some(PlaceConstraint::IsChar('d')),
        ],
    };

    assert!(!Word::from("ded").matches(&pattern));
    assert!(!Word::from("dede").matches(&pattern));
    assert!(!Word::from("ddde").matches(&pattern));
    assert!(!Word::from("dcde").matches(&pattern));
    assert!(Word::from("dfde").matches(&pattern));

    let pattern = Pattern {
        disallowed: LetterBitmask::compute_bitmask(&vec!['y', 's', 'h', 'a', 't', 'z']),
        must_contain: vec![],
        constraints: vec![
            Some(PlaceConstraint::IsNotChars(vec!['w'].to_letter_bitmask())),
            Some(PlaceConstraint::IsChar('e')),
            None,
            Some(PlaceConstraint::IsChar('e')),
        ],
    };

    assert!(Word::from("rewed").matches(&pattern));
    assert!(Word::from("beweded").matches(&pattern));
    assert!(!Word::from("zeweded").matches(&pattern));

    let pattern = Pattern {
        disallowed: LetterBitmask::compute_bitmask(&vec![
            't', 'b', 'i', 'n', 'g', 's', 'z', 'e', 'l', 'u', 'y', 'r',
        ]),
        must_contain: vec![('a', 1), ('o', 1), ('h', 1), ('c', 1)],
        constraints: vec![
            Some(PlaceConstraint::IsNotChars(vec!['s', 'l', 'b', 'a'].to_letter_bitmask())),
            Some(PlaceConstraint::IsChar('o')),
            Some(PlaceConstraint::IsNotChars(vec!['a', 'n', 't', 'y'].to_letter_bitmask())),
            Some(PlaceConstraint::IsNotChars(vec!['r', 'a', 'o', 'g'].to_letter_bitmask())),
            Some(PlaceConstraint::IsNotChars(vec!['e', 'c', 'h', 'y'].to_letter_bitmask())),
        ],
    };

    assert!(Word::from("mocha").matches(&pattern));
    assert!(!Word::from("azygy").matches(&pattern));
    assert!(!Word::from("bocha").matches(&pattern));
}

#[test]
fn test_outcome_of_guess() {
    let word = Word::from("abccdeefxr");
    let guess = Word::from("azdcccferr");
    let outcome = word.outcome_of_guess(&guess);
    assert_eq!(
        outcome,
        vec![
            TileOutcome::Green,
            TileOutcome::Gray,
            TileOutcome::Yellow,
            TileOutcome::Green,
            TileOutcome::Yellow,
            TileOutcome::Gray,
            TileOutcome::Yellow,
            TileOutcome::Yellow,
            TileOutcome::Gray,
            TileOutcome::Green,
        ]
    );
}

#[test]
fn outcome_counts_repeated_letters_once() {
    let secret = Word::from("crepe");
    let guess = Word::from("eerie");
    assert_eq!(
        secret.outcome_of_guess(&guess),
        vec![
            TileOutcome::Yellow,
            TileOutcome::Gray,
            TileOutcome::Yellow,
            TileOutcome::Gray,
            TileOutcome::Green,
        ]
    );
}

#[test]
fn outcome_greens_and_letter_budget() {
    let secret = Word::from("speed");
    let guess = Word::from("eerie");
    let tiles = secret.outcome_of_guess(&guess);
    let greens = tiles.iter().filter(|t| **t == TileOutcome::Green).count();
    let agree = "speed".chars().zip("eerie".chars()).filter(|(a, b)| a == b).count();
    assert_eq!(greens, agree);
    let e_tiles = "eerie"
        .chars()
        .zip(tiles.iter())
        .filter(|(c, t)| *c == 'e' && **t != TileOutcome::Gray)
        .count();
    assert_eq!(e_tiles, 2);
    assert_eq!(
        tiles,
        vec![
            TileOutcome::Yellow,
            TileOutcome::Yellow,
            TileOutcome::Gray,
            TileOutcome::Gray,
            TileOutcome::Gray,
        ]
    );
}

#[test]
fn self_guess_is_all_green() {
    let w = Word::from("llama");
    assert_eq!(w.outcome_of_guess(&w), vec![TileOutcome::Green; 5]);
}

#[test]
fn mocha_matches_bocha_does_not() {
    let pattern = Pattern {
        disallowed: vec!['t', 'b', 'i', 'n', 'g', 's', 'z', 'e', 'l', 'u', 'y', 'r'].to_letter_bitmask(),
        must_contain: vec![('a', 1), ('o', 1), ('h', 1), ('c', 1)],
        constraints: vec![],
    };
    let words = list(&["mocha", "bocha", "nacho", "poach", "coach"]);
    let kept = words.filter_pattern(&pattern);
    assert!(Word::from("mocha").matches(&pattern));
    assert!(!Word::from("bocha").matches(&pattern));
    assert_eq!(spelled(&kept), vec!["mocha", "poach", "coach"]);
}

#[test]
fn words_and_letters() {
    let w = Word::from(String::from("hello"));
    assert_eq!(w.get_word(), "hello");
    assert_eq!(w.len(), 5);
    assert_eq!(w.num_occurrences(&'l'), 2);
    assert_eq!(w.num_occurrences(&'z'), 0);
    assert!(w.has_letter(&'h'));
    assert!(w.has_letter(&'H'));
    assert!(!w.has_letter(&'a'));
    assert!(w.obeys_constraint((&1, &PlaceConstraint::IsChar('e'))));
    assert!(!w.obeys_constraint((&0, &PlaceConstraint::IsNotChars(LetterBitmask::char_bitmask(&'h')))));
    assert_eq!(w.letters(), vec!['h', 'e', 'l', 'l', 'o']);
    assert!(w.same_letters(&Word::from("hello")));
    assert!(!w.same_letters(&Word::from("hells")));
    assert_eq!(w.duplicate().get_word(), "hello");
}

#[test]
fn wordlist_keeps_five_letter_words() {
    let words = list(&["apple", "kiwi", "grape", "bananas", "lemon"]);
    assert_eq!(words.len(), 3);
    assert_eq!(spelled(&words), vec!["apple", "grape", "lemon"]);
    assert_eq!(words.get(1).get_word(), "grape");
    assert_eq!(spelled(&words.duplicate()), vec!["apple", "grape", "lemon"]);
}

#[test]
fn wordlist_lookup_and_draw() {
    let words = list(&["apple", "grape", "lemon"]);
    assert_eq!(words.get_word("grape").map(|w| w.get_word()), Some("grape".to_string()));
    assert!(words.get_word("melon").is_none());
    let drawn = words.random_word().expect("a word").get_word();
    assert!(["apple", "grape", "lemon"].contains(&drawn.as_str()));
    assert!(list(&[]).random_word().is_none());
}

#[test]
fn filter_twice_is_filter_once() {
    let words = list(&["crane", "crate", "trace", "caret", "react", "brace"]);
    let tiles = Word::from("crate").outcome_of_guess(&Word::from("crane"));
    let p = Pattern::default().ingest(&Guess {
        guess: vec!['c', 'r', 'a', 'n', 'e'],
        outcome: tiles,
    });
    let once = words.filter_pattern(&p);
    let twice = once.filter_pattern(&p);
    assert_eq!(spelled(&once), vec!["crate"]);
    assert_eq!(spelled(&twice), spelled(&once));
    assert_eq!(words.count_matching(&p), 1);
    assert_eq!(words.matching_positions(&p), vec![1]);
}

#[test]
fn new_evidence_never_widens() {
    let words = list(&["crane", "crate", "trace", "caret", "react", "brace", "grace"]);
    let k = Pattern::default().ingest(&Guess {
        guess: vec!['s', 'l', 'o', 'n', 'y'],
        outcome: vec![TileOutcome::Gray; 5],
    });
    let before = words.count_matching(&k);
    let k2 = k.ingest(&Guess {
        guess: vec!['b', 'r', 'a', 'c', 'e'],
        outcome: vec![
            TileOutcome::Gray,
            TileOutcome::Green,
            TileOutcome::Green,
            TileOutcome::Green,
            TileOutcome::Green,
        ],
    });
    let after = words.count_matching(&k2);
    assert_eq!(before, 6);
    assert_eq!(after, 2);
    assert!(after <= before);
    assert_eq!(spelled(&words.filter_pattern(&k2)), vec!["trace", "grace"]);
}

#[test]
fn true_tiles_keep_the_secret() {
    let secret = Word::from("crepe");
    let mut knowledge = Pattern::default();
    for guess in ["eerie", "tares", "creep", "crepe"] {
        let g = Word::from(guess);
        let tiles = secret.outcome_of_guess(&g);
        knowledge = knowledge.ingest(&Guess { guess: g.letters(), outcome: tiles });
        assert!(secret.matches(&knowledge));
    }
}
