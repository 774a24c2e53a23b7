use vstd::prelude::*;

use crate::bitmask::{bit_of, char_bitmask, LetterBitmask};
use crate::game::{Guess, TileOutcome};

verus! {

/// What is known of one position of the secret: it holds a given letter,
/// or none of a set of letters.
#[derive(Clone, Copy, Debug, PartialEq, Eq, Structural)]
pub enum PlaceConstraint {
    IsChar(char),
    IsNotChars(LetterBitmask),
}

/// Whether letter `c` at a position satisfies that position's constraint.
pub open spec fn obeys(c: char, pc: PlaceConstraint) -> bool {
    match pc {
        PlaceConstraint::IsChar(x) => c == x,
        PlaceConstraint::IsNotChars(m) => m & bit_of(c) == 0,
    }
}

/// The minimum count that the entries of `s` require of letter `c`: the
/// largest count recorded for it, zero when there is none.
pub open spec fn required(s: Seq<(char, usize)>, c: char) -> nat
    decreases s.len(),
{
    if s.len() == 0 {
        0
    } else {
        let r = required(s.drop_last(), c);
        if s.last().0 == c && s.last().1 > r {
            s.last().1 as nat
        } else {
            r
        }
    }
}

/// Whether some entry of `s` is about letter `c`.
pub open spec fn keyed(s: Seq<(char, usize)>, c: char) -> bool {
    exists|i: int| 0 <= i < s.len() && #[trigger] s[i].0 == c
}

/// No two entries of `s` are about the same letter.
pub open spec fn unique_keys(s: Seq<(char, usize)>) -> bool {
    forall|i: int, j: int| 0 <= i < j < s.len() ==> #[trigger] s[i].0 != #[trigger] s[j].0
}

/// Number of positions before `k` where the guess shows letter `c` on a
/// tile that is not gray.
pub open spec fn hits(g: Seq<char>, o: Seq<TileOutcome>, k: int, c: char) -> nat
    decreases k,
{
    if k <= 0 {
        0
    } else {
        hits(g, o, k - 1, c) + if g[k - 1] == c && o[k - 1] != TileOutcome::Gray {
            1nat
        } else {
            0nat
        }
    }
}

/// Bits of the letters shown gray before position `k` that show on no
/// other tile among the first `n`.
pub open spec fn absent_mask(g: Seq<char>, o: Seq<TileOutcome>, n: int, k: int) -> u64
    decreases k,
{
    if k <= 0 {
        0
    } else {
        absent_mask(g, o, n, k - 1) | if o[k - 1] == TileOutcome::Gray && hits(g, o, n, g[k - 1])
            == 0 {
            bit_of(g[k - 1])
        } else {
            0
        }
    }
}

/// The constraint of a position after a tile of letter `c` and outcome `t`
/// was seen there, given the letters `d` already known to be absent.
pub open spec fn next_constraint(
    prev: Option<PlaceConstraint>,
    d: u64,
    c: char,
    t: TileOutcome,
) -> Option<PlaceConstraint> {
    if t == TileOutcome::Green {
        Some(PlaceConstraint::IsChar(c))
    } else if d & bit_of(c) == 0 {
        match prev {
            Some(PlaceConstraint::IsChar(x)) => Some(PlaceConstraint::IsChar(x)),
            Some(PlaceConstraint::IsNotChars(m)) => Some(PlaceConstraint::IsNotChars(m | bit_of(c))),
            None => Some(PlaceConstraint::IsNotChars(bit_of(c))),
        }
    } else {
        prev
    }
}

/// The constraint recorded at position `i`, if any.
pub open spec fn constraint_at(cs: Seq<Option<PlaceConstraint>>, i: int) -> Option<
    PlaceConstraint,
> {
    if 0 <= i < cs.len() {
        cs[i]
    } else {
        None
    }
}

proof fn lemma_required_push(s: Seq<(char, usize)>, x: (char, usize), c: char)
    ensures
        required(s.push(x), c) == if x.0 == c && x.1 > required(s, c) {
            x.1 as nat
        } else {
            required(s, c)
        },
{
    assert(s.push(x).drop_last() =~= s);
}

proof fn lemma_required_update(s: Seq<(char, usize)>, j: int, v: usize, c: char)
    requires
        0 <= j < s.len(),
        v >= s[j].1,
    ensures
        required(s.update(j, (s[j].0, v)), c) == if s[j].0 == c && v > required(s, c) {
            v as nat
        } else {
            required(s, c)
        },
        s[j].0 == c ==> required(s, c) >= s[j].1,
    decreases s.len(),
{
    let t = s.update(j, (s[j].0, v));
    if j == s.len() - 1 {
        assert(t.drop_last() =~= s.drop_last());
    } else {
        assert(t.drop_last() =~= s.drop_last().update(j, (s[j].0, v)));
        lemma_required_update(s.drop_last(), j, v, c);
    }
}

/// Number of positions of `guess` whose tile is not gray and whose letter
/// is `c`.
fn count_hits(guess: &Guess, c: char) -> (r: usize)
    ensures
        r == hits(guess.guess@, guess.outcome@, guess.span() as int, c),
{
    let n: usize = if guess.guess.len() <= guess.outcome.len() {
        guess.guess.len()
    } else {
        guess.outcome.len()
    };
    let mut count: usize = 0;
    let mut i: usize = 0;
    while i < n
        invariant
            n == guess.span(),
            i <= n,
            count == hits(guess.guess@, guess.outcome@, i as int, c),
            count <= i,
        decreases n - i,
    {
        if guess.guess[i] == c && guess.outcome[i] != TileOutcome::Gray {
            count = count + 1;
        }
        i = i + 1;
    }
    count
}

/// Raises the minimum count of `c` to at least `v`, adding an entry for `c`
/// if it has none.
fn raise_requirement(must_contain: &mut Vec<(char, usize)>, c: char, v: usize)
    ensures
        unique_keys(old(must_contain)@) ==> unique_keys(final(must_contain)@),
        forall|x: char|
            #[trigger] required(final(must_contain)@, x) == if x == c && v > required(
                old(must_contain)@,
                x,
            ) {
                v as nat
            } else {
                required(old(must_contain)@, x)
            },
        forall|x: char|
            #[trigger] keyed(final(must_contain)@, x) <==> keyed(old(must_contain)@, x) || x == c,
{
    let ghost s = must_contain@;
    let mut i: usize = 0;
    while i < must_contain.len() && must_contain[i].0 != c
        invariant
            must_contain@ == s,
            i <= s.len(),
            forall|j: int| 0 <= j < i ==> #[trigger] s[j].0 != c,
        decreases s.len() - i,
    {
        i = i + 1;
    }
    if i < must_contain.len() {
        let cur = must_contain[i].1;
        let top = if v > cur {
            v
        } else {
            cur
        };
        must_contain.set(i, (c, top));
        proof {
            assert forall|x: char| #[trigger]
                required(must_contain@, x) == if x == c && v > required(s, x) {
                    v as nat
                } else {
                    required(s, x)
                } by {
                lemma_required_update(s, i as int, top, x);
            }
            assert forall|x: char| #[trigger] keyed(must_contain@, x) <==> keyed(s, x) || x == c by {
                if keyed(s, x) {
                    let k = choose|k: int| 0 <= k < s.len() && #[trigger] s[k].0 == x;
                    assert(must_contain@[k].0 == x);
                }
                if keyed(must_contain@, x) {
                    let k = choose|k: int|
                        0 <= k < must_contain@.len() && #[trigger] must_contain@[k].0 == x;
                    assert(s[k].0 == x);
                }
                if x == c {
                    assert(must_contain@[i as int].0 == x);
                }
            }
            assert(unique_keys(s) ==> unique_keys(must_contain@)) by {
                if unique_keys(s) {
                    assert forall|a: int, b: int|
                        0 <= a < b < must_contain@.len() implies #[trigger] must_contain@[a].0
                        != #[trigger] must_contain@[b].0 by {
                        assert(s[a].0 != s[b].0);
                    }
                }
            }
        }
    } else {
        must_contain.push((c, v));
        proof {
            assert forall|x: char| #[trigger]
                required(must_contain@, x) == if x == c && v > required(s, x) {
                    v as nat
                } else {
                    required(s, x)
                } by {
                lemma_required_push(s, (c, v), x);
            }
            assert forall|x: char| #[trigger] keyed(must_contain@, x) <==> keyed(s, x) || x == c by {
                if keyed(s, x) {
                    let k = choose|k: int| 0 <= k < s.len() && #[trigger] s[k].0 == x;
                    assert(must_contain@[k].0 == x);
                }
                if x == c {
                    assert(must_contain@[s.len() as int].0 == x);
                }
            }
            assert(unique_keys(s) ==> unique_keys(must_contain@)) by {
                if unique_keys(s) {
                    assert forall|a: int, b: int|
                        0 <= a < b < must_contain@.len() implies #[trigger] must_contain@[a].0
                        != #[trigger] must_contain@[b].0 by {
                        if b < s.len() {
                            assert(s[a].0 != s[b].0);
                        }
                    }
                }
            }
        }
    }
}

/// Executable form of `next_constraint`.
fn constrain_position(
    prev: Option<PlaceConstraint>,
    d: LetterBitmask,
    c: char,
    t: TileOutcome,
) -> (r: Option<PlaceConstraint>)
    ensures
        r == next_constraint(prev, d, c, t),
{
    if t == TileOutcome::Green {
        Some(PlaceConstraint::IsChar(c))
    } else {
        let mask = char_bitmask(&c);
        if d & mask == 0 {
            match prev {
                Some(PlaceConstraint::IsChar(x)) => Some(PlaceConstraint::IsChar(x)),
                Some(PlaceConstraint::IsNotChars(m)) => Some(PlaceConstraint::IsNotChars(m | mask)),
                None => Some(PlaceConstraint::IsNotChars(mask)),
            }
        } else {
            prev
        }
    }
}

/// The knowledge gained over a game: letters known to be absent, minimum
/// counts of letters known to be present, and one optional constraint per
/// position.
#[derive(Clone, Debug)]
pub struct Pattern {
    pub disallowed: LetterBitmask,
    pub must_contain: Vec<(char, usize)>,
    pub constraints: Vec<Option<PlaceConstraint>>,
}

impl Default for Pattern {
    fn default() -> (r: Self)
        ensures
            r.disallowed == 0,
            r.must_contain@.len() == 0,
            r.constraints@.len() == 0,
    {
        Pattern { disallowed: 0, must_contain: Vec::new(), constraints: Vec::new() }
    }
}

impl Pattern {
    /// Each letter has at most one minimum-count entry.
    pub open spec fn well_formed(&self) -> bool {
        unique_keys(self.must_contain@)
    }

    /// Whether the letters `w` satisfy everything this knowledge states.
    pub open spec fn admits(&self, w: Seq<char>) -> bool {
        &&& crate::bitmask::mask_of(w) & self.disallowed == 0
        &&& forall|i: int|
            0 <= i < self.must_contain@.len() ==> crate::words::occurrences(
                w,
                #[trigger] self.must_contain@[i].0,
            ) >= self.must_contain@[i].1
        &&& forall|i: int|
            0 <= i < self.constraints@.len() && #[trigger] self.constraints@[i] is Some ==> obeys(
                w[i],
                self.constraints@[i]->Some_0,
            )
    }
    /// `r` is what ingesting the tiles `o` of guess `g` makes of `self`:
    /// gray-only letters join the absent ones, each letter's minimum count
    /// rises to the number of its tiles that are not gray, and each position
    /// of the guess gets its constraint from its tile.
    pub open spec fn ingests(&self, g: Seq<char>, o: Seq<TileOutcome>, r: Pattern) -> bool {
        let n = if g.len() <= o.len() {
            g.len() as int
        } else {
            o.len() as int
        };
        &&& r.disallowed == self.disallowed | absent_mask(g, o, n, n)
        &&& self.well_formed() ==> r.well_formed()
        &&& forall|c: char|
            #![trigger required(r.must_contain@, c)]
            {
                let h = hits(g, o, n, c);
                required(r.must_contain@, c) == if h > required(self.must_contain@, c) {
                    h
                } else {
                    required(self.must_contain@, c)
                }
            }
        &&& forall|c: char|
            #[trigger] keyed(r.must_contain@, c) <==> keyed(self.must_contain@, c) || hits(
                g,
                o,
                n,
                c,
            ) > 0
        &&& r.constraints@.len() == if self.constraints@.len() >= n {
            self.constraints@.len() as int
        } else {
            n
        }
        &&& forall|i: int|
            0 <= i < r.constraints@.len() ==> #[trigger] r.constraints@[i] == if i < n {
                next_constraint(constraint_at(self.constraints@, i), self.disallowed, g[i], o[i])
            } else {
                self.constraints@[i]
            }
    }

    /// The knowledge of `self` merged with the evidence of `guess`; `self`
    /// is left as it is.
    pub fn ingest(&self, guess: &Guess) -> (r: Self)
        ensures
            self.ingests(guess.guess@, guess.outcome@, r),
    {
        let ghost g = guess.guess@;
        let ghost o = guess.outcome@;
        let pairs = guess.paired_iter();
        let n = pairs.len();

        // Minimum counts: every letter on a tile that is not gray needs at
        // least as many copies as this guess shows of it.
        let mut must_contain: Vec<(char, usize)> = Vec::new();
        let mut i: usize = 0;
        while i < self.must_contain.len()
            invariant
                i <= self.must_contain@.len(),
                must_contain@ == self.must_contain@.subrange(0, i as int),
            decreases self.must_contain@.len() - i,
        {
            must_contain.push(self.must_contain[i]);
            i = i + 1;
        }
        proof {
            assert(must_contain@ =~= self.must_contain@);
        }
        let mut i: usize = 0;
        while i < n
            invariant
                n == guess.span(),
                pairs@.len() == n,
                forall|j: int| 0 <= j < n ==> #[trigger] pairs@[j] == (g[j], o[j]),
                g == guess.guess@,
                o == guess.outcome@,
                i <= n,
                unique_keys(self.must_contain@) ==> unique_keys(must_contain@),
                forall|c: char|
                    #![trigger required(must_contain@, c)]
                    {
                        let h = if hits(g, o, i as int, c) > 0 {
                            hits(g, o, n as int, c)
                        } else {
                            0
                        };
                        required(must_contain@, c) == if h > required(self.must_contain@, c) {
                            h
                        } else {
                            required(self.must_contain@, c)
                        }
                    },
                forall|c: char|
                    #[trigger] keyed(must_contain@, c) <==> keyed(self.must_contain@, c) || hits(
                        g,
                        o,
                        i as int,
                        c,
                    ) > 0,
            decreases n - i,
        {
            let (ch, outcome) = pairs[i];
            if outcome != TileOutcome::Gray {
                let h = count_hits(guess, ch);
                raise_requirement(&mut must_contain, ch, h);
            }
            i = i + 1;
        }

        // Letters shown only on gray tiles are absent from the secret.
        let mut disallowed = self.disallowed;
        proof {
            let d0 = self.disallowed;
            assert(d0 | 0u64 == d0) by (bit_vector);
        }
        let mut i: usize = 0;
        while i < n
            invariant
                n == guess.span(),
                pairs@.len() == n,
                forall|j: int| 0 <= j < n ==> #[trigger] pairs@[j] == (g[j], o[j]),
                g == guess.guess@,
                o == guess.outcome@,
                i <= n,
                disallowed == self.disallowed | absent_mask(g, o, n as int, i as int),
            decreases n - i,
        {
            let (ch, outcome) = pairs[i];
            let ghost am = absent_mask(g, o, n as int, i as int);
            if outcome == TileOutcome::Gray && count_hits(guess, ch) == 0 {
                let mask = char_bitmask(&ch);
                proof {
                    let d0 = self.disallowed;
                    assert((d0 | am) | mask == d0 | (am | mask)) by (bit_vector);
                }
                disallowed = disallowed | mask;
            } else {
                proof {
                    assert(am | 0u64 == am) by (bit_vector);
                }
            }
            i = i + 1;
        }

        // Positional constraints.
        let mut constraints: Vec<Option<PlaceConstraint>> = Vec::new();
        let mut i: usize = 0;
        while i < self.constraints.len()
            invariant
                i <= self.constraints@.len(),
                constraints@ == self.constraints@.subrange(0, i as int),
            decreases self.constraints@.len() - i,
        {
            constraints.push(self.constraints[i]);
            i = i + 1;
        }
        while constraints.len() < n
            invariant
                constraints@.len() >= self.constraints@.len(),
                constraints@.len() == self.constraints@.len() || constraints@.len() <= n,
                forall|j: int|
                    0 <= j < constraints@.len() ==> #[trigger] constraints@[j] == constraint_at(
                        self.constraints@,
                        j,
                    ),
            decreases n - constraints@.len(),
        {
            constraints.push(None);
        }
        let ghost base = constraints@;
        let mut i: usize = 0;
        while i < n
            invariant
                n == guess.span(),
                pairs@.len() == n,
                forall|j: int| 0 <= j < n ==> #[trigger] pairs@[j] == (g[j], o[j]),
                g == guess.guess@,
                o == guess.outcome@,
                i <= n,
                n <= base.len(),
                constraints@.len() == base.len(),
                forall|j: int|
                    0 <= j < base.len() ==> #[trigger] base[j] == constraint_at(
                        self.constraints@,
                        j,
                    ),
                forall|j: int|
                    0 <= j < base.len() ==> #[trigger] constraints@[j] == if j < i {
                        next_constraint(base[j], self.disallowed, g[j], o[j])
                    } else {
                        base[j]
                    },
            decreases n - i,
        {
            let (ch, outcome) = pairs[i];
            let next = constrain_position(constraints[i], self.disallowed, ch, outcome);
            constraints.set(i, next);
            i = i + 1;
        }
        Pattern { disallowed, must_contain, constraints }
    }
}

} // verus!
