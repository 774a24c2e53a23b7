use vstd::prelude::*;

use crate::game::{Guess, TileOutcome};
use crate::pattern::Pattern;
use crate::words::{admitted, letters_of, outcome, Word, Wordlist, WORD_LENGTH};

verus! {

/// How much a strategy reports while it works.
#[derive(Clone, Copy, Debug, PartialEq, Eq, Structural)]
pub enum StrategyVerbosity {
    Silent,
    PrettyPrint,
    Debug,
}

/// Number of words of `ws` against which guess `g` shows the tiles `o`.
pub open spec fn tally(ws: Seq<Seq<char>>, g: Seq<char>, o: Seq<TileOutcome>) -> nat
    decreases ws.len(),
{
    if ws.len() == 0 {
        0
    } else {
        tally(ws.drop_last(), g, o) + if outcome(ws.last(), g) == o {
            1nat
        } else {
            0nat
        }
    }
}

/// Whether ingesting tiles `o` of guess `g` into knowledge `k` gives a
/// knowledge that admits exactly `remaining` of the words `ws`.
pub open spec fn leaves(
    k: Pattern,
    ws: Seq<Seq<char>>,
    g: Seq<char>,
    o: Seq<TileOutcome>,
    remaining: nat,
) -> bool {
    exists|p: Pattern| #[trigger] k.ingests(g, o, p) && remaining == admitted(ws, p).len()
}

/// Whether some class of `r` has the tiles `o`.
pub open spec fn has_class(r: Seq<OutcomeClass>, o: Seq<TileOutcome>) -> bool {
    exists|k: int| 0 <= k < r.len() && (#[trigger] r[k]).outcome@ == o
}

/// Whether every tile of `o` is green.
pub open spec fn all_green(o: Seq<TileOutcome>) -> bool {
    forall|i: int| 0 <= i < o.len() ==> o[i] == TileOutcome::Green
}

proof fn lemma_tally_witness(ws: Seq<Seq<char>>, g: Seq<char>, o: Seq<TileOutcome>)
    requires
        tally(ws, g, o) > 0,
    ensures
        exists|j: int| 0 <= j < ws.len() && outcome(ws[j], g) == o,
    decreases ws.len(),
{
    if outcome(ws.last(), g) != o {
        lemma_tally_witness(ws.drop_last(), g, o);
        let j = choose|j: int| 0 <= j < ws.len() - 1 && outcome(ws.drop_last()[j], g) == o;
        assert(ws[j] == ws.drop_last()[j]);
    }
}

/// Whether two tile sequences are equal.
fn same_outcome(a: &Vec<TileOutcome>, b: &Vec<TileOutcome>) -> (r: bool)
    ensures
        r == (a@ == b@),
{
    if a.len() != b.len() {
        return false;
    }
    let mut i: usize = 0;
    while i < a.len()
        invariant
            i <= a@.len(),
            a@.len() == b@.len(),
            forall|j: int| 0 <= j < i ==> a@[j] == b@[j],
        decreases a@.len() - i,
    {
        if a[i] != b[i] {
            return false;
        }
        i = i + 1;
    }
    proof {
        assert(a@ =~= b@);
    }
    true
}

/// A copy of a tile sequence.
fn copy_outcome(a: &Vec<TileOutcome>) -> (r: Vec<TileOutcome>)
    ensures
        r@ == a@,
{
    let mut r: Vec<TileOutcome> = Vec::new();
    let mut i: usize = 0;
    while i < a.len()
        invariant
            i <= a@.len(),
            r@ == a@.take(i as int),
        decreases a@.len() - i,
    {
        r.push(a[i]);
        proof {
            assert(r@ =~= a@.take(i + 1));
        }
        i = i + 1;
    }
    proof {
        assert(r@ =~= a@);
    }
    r
}

/// Whether every tile is green.
pub fn is_all_green(o: &Vec<TileOutcome>) -> (r: bool)
    ensures
        r == all_green(o@),
{
    let mut i: usize = 0;
    while i < o.len()
        invariant
            i <= o@.len(),
            forall|j: int| 0 <= j < i ==> o@[j] == TileOutcome::Green,
        decreases o@.len() - i,
    {
        if o[i] != TileOutcome::Green {
            return false;
        }
        i = i + 1;
    }
    true
}

/// The candidates that would show a guess the same tiles: the tiles, how
/// many candidates show them, how many candidates the knowledge gained from
/// them would leave, and whether they end the game at once (a single
/// candidate is left and every tile is green).
#[derive(Clone, Debug)]
pub struct OutcomeClass {
    pub outcome: Vec<TileOutcome>,
    pub count: usize,
    pub remaining: usize,
    pub decisive: bool,
}

/// The position of the first largest value of `gains`, or `None` when there
/// is no value.
pub fn select_best(gains: &Vec<u64>) -> (r: Option<usize>)
    ensures
        r is None <==> gains@.len() == 0,
        r matches Some(b) ==> {
            &&& b < gains@.len()
            &&& forall|j: int| 0 <= j < gains@.len() ==> gains@[j] <= gains@[b as int]
            &&& forall|j: int| 0 <= j < b ==> gains@[j] < gains@[b as int]
        },
{
    if gains.len() == 0 {
        return None;
    }
    let mut best: usize = 0;
    let mut i: usize = 1;
    while i < gains.len()
        invariant
            1 <= i <= gains@.len(),
            best < i,
            forall|j: int| 0 <= j < i ==> gains@[j] <= gains@[best as int],
            forall|j: int| 0 <= j < best ==> gains@[j] < gains@[best as int],
        decreases gains@.len() - i,
    {
        if gains[i] > gains[best] {
            best = i;
        }
        i = i + 1;
    }
    Some(best)
}

/// The entropy-driven guesser: the knowledge gathered so far, the words it
/// may guess, and the candidates for the secret that are still consistent
/// with the knowledge.
pub struct EntropyStrategy {
    knowledge: Pattern,
    guesslist: Wordlist,
    extant: Wordlist,
}

impl EntropyStrategy {
    #[verifier::type_invariant]
    spec fn inv(&self) -> bool {
        &&& self.knowledge.constraints@.len() <= WORD_LENGTH
        &&& self.knowledge.well_formed()
    }

    /// The knowledge gathered so far.
    pub closed spec fn known(&self) -> Pattern {
        self.knowledge
    }

    /// The words this strategy may guess.
    pub closed spec fn allowed(&self) -> Seq<Seq<char>> {
        self.guesslist@
    }

    /// The candidates for the secret still consistent with the knowledge.
    pub closed spec fn candidates(&self) -> Seq<Seq<char>> {
        self.extant@
    }

    /// A strategy that knows nothing yet and may guess any word of
    /// `wordlist`, all of which are candidates.
    pub fn init(wordlist: Wordlist) -> (r: Self)
        ensures
            r.known().disallowed == 0,
            r.known().must_contain@.len() == 0,
            r.known().constraints@.len() == 0,
            r.allowed() == wordlist@,
            r.candidates() == wordlist@,
    {
        let extant = wordlist.duplicate();
        EntropyStrategy { knowledge: Pattern::default(), guesslist: wordlist, extant }
    }

    /// The knowledge gathered so far.
    pub fn knowledge(&self) -> (r: &Pattern)
        ensures
            *r == self.known(),
    {
        &self.knowledge
    }

    /// The words this strategy may guess.
    pub fn guesslist(&self) -> (r: &Wordlist)
        ensures
            r@ == self.allowed(),
    {
        &self.guesslist
    }

    /// The candidates still consistent with the knowledge.
    pub fn extant(&self) -> (r: &Wordlist)
        ensures
            r@ == self.candidates(),
    {
        &self.extant
    }

    /// The candidate words still consistent with the knowledge.
    pub fn extant_guesses(&self) -> (r: &Vec<Word>)
        ensures
            letters_of(r@) == self.candidates(),
    {
        self.extant.possible_words()
    }

    /// Folds the evidence of `guess` into the knowledge and keeps the
    /// candidates that the new knowledge admits.
    pub fn register_guess(&mut self, guess: &Guess)
        requires
            guess.span() <= WORD_LENGTH,
        ensures
            old(self).known().ingests(guess.guess@, guess.outcome@, final(self).known()),
            final(self).candidates() == admitted(old(self).candidates(), final(self).known()),
            final(self).allowed() == old(self).allowed(),
    {
        proof {
            use_type_invariant(&*self);
        }
        let knowledge = self.knowledge.ingest(guess);
        let extant = self.extant.filter_pattern(&knowledge);
        self.knowledge = knowledge;
        self.extant = extant;
    }

    /// The candidates grouped by the tiles that `guess` would show against
    /// each of them, in the order in which each group first occurs. For each
    /// group: its tiles, its size, how many candidates the knowledge would
    /// admit after ingesting those tiles, and whether the group ends the game
    /// at once.
    pub fn partition(&self, guess: &Word) -> (r: Vec<OutcomeClass>)
        requires
            guess@.len() == WORD_LENGTH,
        ensures
            forall|a: int, b: int|
                0 <= a < b < r@.len() ==> #[trigger] r@[a].outcome@ != #[trigger] r@[b].outcome@,
            forall|k: int|
                0 <= k < r@.len() ==> #[trigger] r@[k].count == tally(
                    self.candidates(),
                    guess@,
                    r@[k].outcome@,
                ) && r@[k].count > 0,
            forall|j: int|
                0 <= j < self.candidates().len() ==> has_class(
                    r@,
                    outcome(#[trigger] self.candidates()[j], guess@),
                ),
            forall|k: int|
                0 <= k < r@.len() ==> leaves(
                    self.known(),
                    self.candidates(),
                    guess@,
                    (#[trigger] r@[k]).outcome@,
                    r@[k].remaining as nat,
                ),
            forall|k: int|
                0 <= k < r@.len() ==> #[trigger] r@[k].decisive == (self.candidates().len() == 1
                    && all_green(r@[k].outcome@)),
    {
        proof {
            use_type_invariant(self);
        }
        let ghost ws = self.extant@;
        let ghost g = guess@;
        let n = self.extant.len();
        let mut outcomes: Vec<Vec<TileOutcome>> = Vec::new();
        let mut counts: Vec<usize> = Vec::new();
        let mut i: usize = 0;
        while i < n
            invariant
                n == ws.len(),
                ws == self.extant@,
                g == guess@,
                g.len() == WORD_LENGTH,
                i <= n,
                outcomes@.len() == counts@.len(),
                forall|a: int, b: int|
                    0 <= a < b < outcomes@.len() ==> #[trigger] outcomes@[a]@
                        != #[trigger] outcomes@[b]@,
                forall|k: int|
                    0 <= k < counts@.len() ==> #[trigger] counts@[k] == tally(
                        ws.take(i as int),
                        g,
                        outcomes@[k]@,
                    ) && counts@[k] > 0 && counts@[k] <= i,
                forall|j: int|
                    0 <= j < i ==> exists|k: int|
                        0 <= k < outcomes@.len() && #[trigger] outcomes@[k]@ == outcome(
                            #[trigger] ws[j],
                            g,
                        ),
            decreases n - i,
        {
            let secret = self.extant.get(i);
            let o = secret.outcome_of_guess(guess);
            proof {
                assert(ws.take(i + 1).drop_last() =~= ws.take(i as int));
                assert(ws.take(i + 1).last() == ws[i as int]);
            }
            let mut k: usize = 0;
            while k < outcomes.len() && !same_outcome(&outcomes[k], &o)
                invariant
                    k <= outcomes@.len(),
                    forall|m: int| 0 <= m < k ==> outcomes@[m]@ != o@,
                decreases outcomes@.len() - k,
            {
                k = k + 1;
            }
            if k < outcomes.len() {
                let c = counts[k];
                counts.set(k, c + 1);
                proof {
                    assert(outcomes@[k as int]@ == o@);
                    assert forall|j: int| 0 <= j < i + 1 implies exists|m: int|
                        0 <= m < outcomes@.len() && #[trigger] outcomes@[m]@ == outcome(
                            #[trigger] ws[j],
                            g,
                        ) by {
                        if j == i {
                            assert(outcomes@[k as int]@ == outcome(ws[j], g));
                        }
                    }
                }
            } else {
                proof {
                    if tally(ws.take(i as int), g, o@) > 0 {
                        lemma_tally_witness(ws.take(i as int), g, o@);
                        let j = choose|j: int|
                            0 <= j < i && outcome(ws.take(i as int)[j], g) == o@;
                        assert(ws.take(i as int)[j] == ws[j]);
                        let m = choose|m: int|
                            0 <= m < outcomes@.len() && #[trigger] outcomes@[m]@ == outcome(
                                ws[j],
                                g,
                            );
                        assert(false);
                    }
                }
                let ghost before = outcomes@;
                outcomes.push(o);
                counts.push(1);
                proof {
                    assert forall|j: int| 0 <= j < i + 1 implies exists|m: int|
                        0 <= m < outcomes@.len() && #[trigger] outcomes@[m]@ == outcome(
                            #[trigger] ws[j],
                            g,
                        ) by {
                        if j == i {
                            assert(outcomes@[before.len() as int]@ == outcome(ws[j], g));
                        } else {
                            let m = choose|m: int|
                                0 <= m < before.len() && #[trigger] before[m]@ == outcome(
                                    ws[j],
                                    g,
                                );
                            assert(outcomes@[m]@ == outcome(ws[j], g));
                        }
                    }
                }
            }
            i = i + 1;
        }
        proof {
            assert(ws.take(n as int) =~= ws);
        }
        let letters = guess.letters();
        let mut classes: Vec<OutcomeClass> = Vec::new();
        let mut k: usize = 0;
        while k < outcomes.len()
            invariant
                n == ws.len(),
                ws == self.extant@,
                g == guess@,
                letters@ == g,
                g.len() == WORD_LENGTH,
                self.knowledge.constraints@.len() <= WORD_LENGTH,
                k <= outcomes@.len(),
                outcomes@.len() == counts@.len(),
                classes@.len() == k,
                forall|m: int|
                    0 <= m < k ==> (#[trigger] classes@[m]).outcome@ == outcomes@[m]@
                        && classes@[m].count == counts@[m],
                forall|m: int|
                    0 <= m < k ==> leaves(
                        self.knowledge,
                        ws,
                        g,
                        (#[trigger] classes@[m]).outcome@,
                        classes@[m].remaining as nat,
                    ),
                forall|m: int|
                    0 <= m < k ==> #[trigger] classes@[m].decisive == (ws.len() == 1 && all_green(
                        classes@[m].outcome@,
                    )),
            decreases outcomes@.len() - k,
        {
            let o = copy_outcome(&outcomes[k]);
            let tiles = copy_outcome(&outcomes[k]);
            let realized = Guess { guess: guess.letters(), outcome: tiles };
            let after = self.knowledge.ingest(&realized);
            let remaining = self.extant.count_matching(&after);
            let decisive = n == 1 && is_all_green(&o);
            let ghost before = classes@;
            classes.push(OutcomeClass { outcome: o, count: counts[k], remaining, decisive });
            proof {
                assert forall|m: int| 0 <= m < k + 1 implies leaves(
                    self.knowledge,
                    ws,
                    g,
                    (#[trigger] classes@[m]).outcome@,
                    classes@[m].remaining as nat,
                ) by {
                    if m == k {
                        assert(self.knowledge.ingests(g, classes@[m].outcome@, after));
                    } else {
                        assert(classes@[m] == before[m]);
                    }
                }
            }
            k = k + 1;
        }
        proof {
            assert(self.candidates() == ws);
            assert forall|j: int| 0 <= j < self.candidates().len() implies has_class(
                classes@,
                outcome(#[trigger] self.candidates()[j], guess@),
            ) by {
                let m = choose|m: int|
                    0 <= m < outcomes@.len() && #[trigger] outcomes@[m]@ == outcome(ws[j], g);
                assert(classes@[m].outcome@ == outcomes@[m]@);
            }
        }
        classes
    }

    /// The allowed guess with the first largest of `gains`, the value the
    /// caller assigns to each allowed guess in order; `None` when no guess is
    /// allowed or no candidate is left.
    pub fn chosen_guess_from(&self, gains: &Vec<u64>) -> (r: Option<Word>)
        requires
            gains@.len() == self.allowed().len(),
        ensures
            r is None <==> (self.allowed().len() == 0 || self.candidates().len() == 0),
            r matches Some(w) ==> exists|b: int|
                0 <= b < gains@.len() && w@ == self.allowed()[b] && (forall|j: int|
                    0 <= j < gains@.len() ==> gains@[j] <= gains@[b]) && (forall|j: int|
                    0 <= j < b ==> gains@[j] < gains@[b]),
    {
        if self.extant.len() == 0 {
            return None;
        }
        match select_best(gains) {
            None => None,
            Some(b) => {
                let w = self.guesslist.get(b).duplicate();
                Some(w)
            },
        }
    }
}

} // verus!
