use std::collections::HashMap;

use crustacean_wordle::bitmask::{CanConvertToLetterBitmask, CanRepresentLetterBitmask, LetterBitmask};
use crustacean_wordle::game::{Guess, TileOutcome};
use crustacean_wordle::pattern::{Pattern, PlaceConstraint};

fn counts_of(p: &Pattern) -> HashMap<char, usize> {
    HashMap::from_iter(p.must_contain.iter().cloned())
}

#[test]
fn test_ingest() {
    let pattern = Pattern::default();
    let pattern1 = pattern.ingest(&Guess {
        guess: vec!['t', 'a', 'r', 'e', 's'],
        outcome: vec![
            TileOutcome::Yellow,
            TileOutcome::Gray,
            TileOutcome::Gray,
            TileOutcome::Gray,
            TileOutcome::Gray,
        ],
    });

    assert_eq!(
        pattern1.disallowed,
        LetterBitmask::compute_bitmask(&vec!['r', 'a', 's', 'e'])
    );
    assert_eq!(counts_of(&pattern1), HashMap::from_iter(vec![('t', 1_usize)]));
    assert_eq!(
        pattern1.constraints,
        vec![
            Some(PlaceConstraint::IsNotChars(vec!['t'].to_letter_bitmask())),
            Some(PlaceConstraint::IsNotChars(vec!['a'].to_letter_bitmask())),
            Some(PlaceConstraint::IsNotChars(vec!['r'].to_letter_bitmask())),
            Some(PlaceConstraint::IsNotChars(vec!['e'].to_letter_bitmask())),
            Some(PlaceConstraint::IsNotChars(vec!['s'].to_letter_bitmask())),
        ]
    );

    let pattern = Pattern {
        disallowed: LetterBitmask::compute_bitmask(&vec!['a', 'b', 'c']),
        must_contain: vec![('e', 1_usize)],
        constraints: vec![
            Some(PlaceConstraint::IsChar('d')),
            Some(PlaceConstraint::IsChar('e')),
            Some(PlaceConstraint::IsChar('d')),
        ],
    };

    let pattern2 = pattern.ingest(&Guess {
        guess: vec!['d', 'e', 'd', 'e', 'f', 'e'],
        outcome: vec![
            TileOutcome::Green,
            TileOutcome::Green,
            TileOutcome::Green,
            TileOutcome::Yellow,
            TileOutcome::Yellow,
            TileOutcome::Gray,
        ],
    });

    assert_eq!(
        pattern2.disallowed,
        LetterBitmask::compute_bitmask(&vec!['a', 'b', 'c'])
    );
    assert_eq!(
        counts_of(&pattern2),
        HashMap::from_iter(vec![('f', 1_usize), ('d', 2_usize), ('e', 2_usize)])
    );
    assert_eq!(
        pattern2.constraints,
        vec![
            Some(PlaceConstraint::IsChar('d')),
            Some(PlaceConstraint::IsChar('e')),
            Some(PlaceConstraint::IsChar('d')),
            Some(PlaceConstraint::IsNotChars(vec!['e'].to_letter_bitmask())),
            Some(PlaceConstraint::IsNotChars(vec!['f'].to_letter_bitmask())),
            Some(PlaceConstraint::IsNotChars(vec!['e'].to_letter_bitmask())),
        ]
    );
}

#[test]
fn ingest_from_nothing_on_tares() {
    let p = Pattern::default().ingest(&Guess {
        guess: vec!['t', 'a', 'r', 'e', 's'],
        outcome: vec![
            TileOutcome::Yellow,
            TileOutcome::Gray,
            TileOutcome::Gray,
            TileOutcome::Gray,
            TileOutcome::Gray,
        ],
    });
    assert_eq!(p.disallowed, vec!['a', 'r', 'e', 's'].to_letter_bitmask());
    assert_eq!(counts_of(&p), HashMap::from_iter(vec![('t', 1_usize)]));
    assert_eq!(
        p.constraints[0],
        Some(PlaceConstraint::IsNotChars(LetterBitmask::char_bitmask(&'t')))
    );
}

#[test]
fn ingest_keeps_the_larger_count() {
    let p = Pattern {
        disallowed: 0,
        must_contain: vec![('e', 3_usize)],
        constraints: vec![],
    };
    let q = p.ingest(&Guess {
        guess: vec!['e', 'x', 'x', 'x', 'x'],
        outcome: vec![
            TileOutcome::Yellow,
            TileOutcome::Gray,
            TileOutcome::Gray,
            TileOutcome::Gray,
            TileOutcome::Gray,
        ],
    });
    assert_eq!(counts_of(&q), HashMap::from_iter(vec![('e', 3_usize)]));
    assert_eq!(q.disallowed, LetterBitmask::char_bitmask(&'x'));
    // The receiver is left as it was.
    assert_eq!(p.must_contain, vec![('e', 3_usize)]);
    assert!(p.constraints.is_empty());
}

#[test]
fn ingest_extra_copy_is_not_banned() {
    // Two e's guessed, the secret holds one: the gray e must not ban e.
    let q = Pattern::default().ingest(&Guess {
        guess: vec!['e', 'e', 'x', 'y', 'z'],
        outcome: vec![
            TileOutcome::Green,
            TileOutcome::Gray,
            TileOutcome::Gray,
            TileOutcome::Gray,
            TileOutcome::Gray,
        ],
    });
    assert_eq!(q.disallowed, vec!['x', 'y', 'z'].to_letter_bitmask());
    assert_eq!(counts_of(&q), HashMap::from_iter(vec![('e', 1_usize)]));
    assert_eq!(q.constraints[0], Some(PlaceConstraint::IsChar('e')));
    assert_eq!(
        q.constraints[1],
        Some(PlaceConstraint::IsNotChars(LetterBitmask::char_bitmask(&'e')))
    );
}

#[test]
fn forced_letter_is_not_downgraded() {
    let p = Pattern {
        disallowed: 0,
        must_contain: vec![],
        constraints: vec![Some(PlaceConstraint::IsChar('a'))],
    };
    let q = p.ingest(&Guess {
        guess: vec!['b', 'c', 'd', 'f', 'g'],
        outcome: vec![
            TileOutcome::Yellow,
            TileOutcome::Gray,
            TileOutcome::Gray,
            TileOutcome::Gray,
            TileOutcome::Gray,
        ],
    });
    assert_eq!(q.constraints[0], Some(PlaceConstraint::IsChar('a')));
    assert_eq!(q.constraints.len(), 5);
}

#[test]
fn letter_bits() {
    assert_eq!(LetterBitmask::char_bitmask(&'a'), 1);
    assert_eq!(LetterBitmask::char_bitmask(&'z'), 1 << 25);
    assert_eq!(LetterBitmask::char_bitmask(&'C'), 1 << 2);
    assert_eq!(LetterBitmask::char_bitmask(&'-'), 0);
    assert_eq!(vec!['a', 'b', 'a'].to_letter_bitmask(), 3);
}
