use vstd::multiset::Multiset;
use vstd::prelude::*;

use crate::bitmask::{
    lemma_bits_meet, bit_of, char_bitmask, compute_bitmask, holds_letter, lemma_mask_holds, letter_index, mask_of,
    LetterBitmask,
};
use crate::game::TileOutcome;
use crate::pattern::{
    absent_mask, constraint_at, hits, obeys, required, Pattern, PlaceConstraint,
};

verus! {

/// Allowed word length of the puzzle.
pub const WORD_LENGTH: usize = 5;

/// Number of occurrences of `c` in `s`.
pub open spec fn occurrences(s: Seq<char>, c: char) -> nat
    decreases s.len(),
{
    if s.len() == 0 {
        0
    } else {
        occurrences(s.drop_last(), c) + if s.last() == c {
            1nat
        } else {
            0nat
        }
    }
}

/// Number of positions before `k` where guess `g` hits secret `s` exactly
/// with letter `c`.
pub open spec fn green_count(s: Seq<char>, g: Seq<char>, k: int, c: char) -> nat
    decreases k,
{
    if k <= 0 {
        0
    } else {
        green_count(s, g, k - 1, c) + if g[k - 1] == s[k - 1] && s[k - 1] == c {
            1nat
        } else {
            0nat
        }
    }
}

/// Number of positions before `k` where guess `g` shows letter `c` and
/// misses secret `s`.
pub open spec fn miss_count(s: Seq<char>, g: Seq<char>, k: int, c: char) -> nat
    decreases k,
{
    if k <= 0 {
        0
    } else {
        miss_count(s, g, k - 1, c) + if g[k - 1] != s[k - 1] && g[k - 1] == c {
            1nat
        } else {
            0nat
        }
    }
}

/// The tile at position `i` when `g` is guessed against secret `s`: green on
/// an exact hit; otherwise yellow while copies of the letter remain in the
/// secret beyond its exact hits and the earlier misses of that letter;
/// otherwise gray.
pub open spec fn outcome_at(s: Seq<char>, g: Seq<char>, i: int) -> TileOutcome {
    if g[i] == s[i] {
        TileOutcome::Green
    } else if miss_count(s, g, i, g[i]) + green_count(s, g, s.len() as int, g[i]) < occurrences(
        s,
        g[i],
    ) {
        TileOutcome::Yellow
    } else {
        TileOutcome::Gray
    }
}

/// The tiles of guess `g` against secret `s`, position by position.
pub open spec fn outcome(s: Seq<char>, g: Seq<char>) -> Seq<TileOutcome> {
    Seq::new(s.len(), |i: int| outcome_at(s, g, i))
}

proof fn lemma_occurrences_multiset(s: Seq<char>, c: char)
    ensures
        s.to_multiset().count(c) == occurrences(s, c),
    decreases s.len(),
{
    broadcast use vstd::seq_lib::group_to_multiset_ensures;

    if s.len() > 0 {
        lemma_occurrences_multiset(s.drop_last(), c);
        assert(s =~= s.drop_last().push(s.last()));
    } else {
        assert(s.to_multiset() =~= Multiset::empty());
    }
}

proof fn lemma_occurrences_prefix(s: Seq<char>, k: int, c: char)
    requires
        0 <= k <= s.len(),
    ensures
        occurrences(s.take(k), c) <= occurrences(s, c),
    decreases s.len(),
{
    if k < s.len() {
        assert(s.take(k) =~= s.drop_last().take(k));
        lemma_occurrences_prefix(s.drop_last(), k, c);
    } else {
        assert(s.take(k) =~= s);
    }
}

proof fn lemma_green_bounded(s: Seq<char>, g: Seq<char>, k: int, c: char)
    requires
        0 <= k <= s.len(),
    ensures
        green_count(s, g, k, c) <= occurrences(s.take(k), c),
    decreases k,
{
    if k > 0 {
        lemma_green_bounded(s, g, k - 1, c);
        assert(s.take(k).drop_last() =~= s.take(k - 1));
    }
}

/// Number of green tiles among the first `k` of `o`.
pub open spec fn green_tiles(o: Seq<TileOutcome>, k: int) -> nat
    decreases k,
{
    if k <= 0 {
        0
    } else {
        green_tiles(o, k - 1) + if o[k - 1] == TileOutcome::Green {
            1nat
        } else {
            0nat
        }
    }
}

/// Number of positions before `k` where `a` and `b` hold the same letter.
pub open spec fn same_positions(a: Seq<char>, b: Seq<char>, k: int) -> nat
    decreases k,
{
    if k <= 0 {
        0
    } else {
        same_positions(a, b, k - 1) + if a[k - 1] == b[k - 1] {
            1nat
        } else {
            0nat
        }
    }
}

proof fn lemma_green_tiles(a: Seq<char>, b: Seq<char>, k: int)
    requires
        a.len() == b.len(),
        0 <= k <= a.len(),
    ensures
        green_tiles(outcome(a, b), k) == same_positions(a, b, k),
    decreases k,
{
    if k > 0 {
        lemma_green_tiles(a, b, k - 1);
    }
}

proof fn lemma_hits_split(a: Seq<char>, b: Seq<char>, k: int, c: char, avail: int)
    requires
        a.len() == b.len(),
        0 <= k <= a.len(),
        avail == occurrences(a, c) - green_count(a, b, a.len() as int, c),
    ensures
        hits(b, outcome(a, b), k, c) == green_count(a, b, k, c) + if miss_count(a, b, k, c)
            <= avail {
            miss_count(a, b, k, c) as int
        } else if avail >= 0 {
            avail
        } else {
            0
        },
    decreases k,
{
    if k > 0 {
        lemma_hits_split(a, b, k - 1, c, avail);
    }
}

/// Against secret `a`, guess `b` of the same length gets exactly one green
/// tile per position where the two agree, and for each letter no more tiles
/// that are not gray than the secret holds copies of it.
pub proof fn lemma_outcome_counts(a: Seq<char>, b: Seq<char>)
    requires
        a.len() == b.len(),
    ensures
        green_tiles(outcome(a, b), a.len() as int) == same_positions(a, b, a.len() as int),
        forall|c: char| #[trigger] hits(b, outcome(a, b), a.len() as int, c) <= occurrences(a, c),
{
    lemma_green_tiles(a, b, a.len() as int);
    assert forall|c: char| #[trigger] hits(b, outcome(a, b), a.len() as int, c) <= occurrences(
        a,
        c,
    ) by {
        let n = a.len() as int;
        lemma_green_bounded(a, b, n, c);
        lemma_occurrences_prefix(a, n, c);
        assert(a.take(n) =~= a);
        lemma_hits_split(a, b, n, c, occurrences(a, c) - green_count(a, b, n, c));
    }
}

/// A guess against itself as the secret is green at every position.
pub proof fn lemma_self_guess(w: Seq<char>)
    ensures
        outcome(w, w) == Seq::new(w.len(), |i: int| TileOutcome::Green),
{
    assert(outcome(w, w) =~= Seq::new(w.len(), |i: int| TileOutcome::Green));
}

/// Filtering by a knowledge twice keeps what filtering once kept.
pub proof fn lemma_filter_stable(ws: Seq<Seq<char>>, p: Pattern)
    ensures
        admitted(admitted(ws, p), p) == admitted(ws, p),
    decreases ws.len(),
{
    if ws.len() > 0 {
        lemma_filter_stable(ws.drop_last(), p);
        let r = admitted(ws.drop_last(), p);
        if p.admits(ws.last()) {
            assert(r.push(ws.last()).drop_last() =~= r);
        }
    }
}

proof fn lemma_required_entry(s: Seq<(char, usize)>, i: int)
    requires
        0 <= i < s.len(),
    ensures
        required(s, s[i].0) >= s[i].1,
    decreases s.len(),
{
    if i < s.len() - 1 {
        lemma_required_entry(s.drop_last(), i);
        assert(s.drop_last()[i] == s[i]);
    }
}

proof fn lemma_required_met(s: Seq<(char, usize)>, w: Seq<char>, c: char)
    requires
        forall|i: int| 0 <= i < s.len() ==> occurrences(w, #[trigger] s[i].0) >= s[i].1,
    ensures
        occurrences(w, c) >= required(s, c),
    decreases s.len(),
{
    if s.len() > 0 {
        assert forall|i: int| 0 <= i < s.drop_last().len() implies occurrences(
            w,
            #[trigger] s.drop_last()[i].0,
        ) >= s.drop_last()[i].1 by {
            assert(s.drop_last()[i] == s[i]);
        }
        lemma_required_met(s.drop_last(), w, c);
        assert(occurrences(w, s[s.len() - 1].0) >= s[s.len() - 1].1);
    }
}

/// Whether the green tiles of `o` agree with the constraints of `k`: a
/// green letter is the one `k` requires at its position, or not one that
/// `k` rules out there.
pub open spec fn consistent_greens(k: Pattern, g: Seq<char>, o: Seq<TileOutcome>) -> bool {
    forall|i: int|
        0 <= i < g.len() && i < o.len() && o[i] == TileOutcome::Green && #[trigger] constraint_at(
            k.constraints@,
            i,
        ) is Some ==> obeys(g[i], constraint_at(k.constraints@, i)->Some_0)
}

proof fn lemma_ingest_narrows_word(k: Pattern, g: Seq<char>, o: Seq<TileOutcome>, k2: Pattern, w: Seq<char>)
    requires
        k.ingests(g, o, k2),
        consistent_greens(k, g, o),
        k2.admits(w),
    ensures
        k.admits(w),
{
    let m = mask_of(w);
    let d = k.disallowed;
    let n = if g.len() <= o.len() {
        g.len() as int
    } else {
        o.len() as int
    };
    let a = absent_mask(g, o, n, n);
    assert(m & (d | a) == 0 ==> m & d == 0) by (bit_vector);
    assert forall|i: int| 0 <= i < k.must_contain@.len() implies occurrences(
        w,
        #[trigger] k.must_contain@[i].0,
    ) >= k.must_contain@[i].1 by {
        let c = k.must_contain@[i].0;
        lemma_required_entry(k.must_contain@, i);
        lemma_required_met(k2.must_contain@, w, c);
        assert(required(k2.must_contain@, c) >= required(k.must_contain@, c));
    }
    assert forall|i: int|
        0 <= i < k.constraints@.len() && #[trigger] k.constraints@[i] is Some implies obeys(
        w[i],
        k.constraints@[i]->Some_0,
    ) by {
        assert(k2.constraints@.len() >= k.constraints@.len());
        assert(constraint_at(k.constraints@, i) == k.constraints@[i]);
        let pc = k.constraints@[i]->Some_0;
        if i < n {
            let b = bit_of(g[i]);
            let wb = bit_of(w[i]);
            if o[i] != TileOutcome::Green && d & b == 0 {
                if let PlaceConstraint::IsNotChars(x) = pc {
                    assert(k2.constraints@[i] == Some(PlaceConstraint::IsNotChars(x | b)));
                    assert((x | b) & wb == 0 ==> x & wb == 0) by (bit_vector);
                }
            }
        }
    }
}

/// Ingesting a guess whose green tiles agree with the knowledge never lets
/// more candidates through: the new knowledge admits no more of `ws` than
/// the old one.
pub proof fn lemma_ingest_narrows(
    k: Pattern,
    g: Seq<char>,
    o: Seq<TileOutcome>,
    k2: Pattern,
    ws: Seq<Seq<char>>,
)
    requires
        k.ingests(g, o, k2),
        consistent_greens(k, g, o),
    ensures
        admitted(ws, k2).len() <= admitted(ws, k).len(),
    decreases ws.len(),
{
    if ws.len() > 0 {
        lemma_ingest_narrows(k, g, o, k2, ws.drop_last());
        if k2.admits(ws.last()) {
            lemma_ingest_narrows_word(k, g, o, k2, ws.last());
        }
    }
}

/// Whether `x`, if it is a letter, is written in lower case (`lower`) or
/// in upper case (otherwise).
pub open spec fn in_case(x: char, lower: bool) -> bool {
    letter_index(x) >= 0 ==> if lower {
        'a' <= x && x <= 'z'
    } else {
        'A' <= x && x <= 'Z'
    }
}

/// Whether every letter of `s` and of `g` is written in the case `lower`
/// selects.
pub open spec fn cased(s: Seq<char>, g: Seq<char>, lower: bool) -> bool {
    &&& forall|i: int| 0 <= i < s.len() ==> in_case(#[trigger] s[i], lower)
    &&& forall|i: int| 0 <= i < g.len() ==> in_case(#[trigger] g[i], lower)
}

/// Whether the letters of `s` and `g` all share one case.
pub open spec fn single_case(s: Seq<char>, g: Seq<char>) -> bool {
    cased(s, g, true) || cased(s, g, false)
}

proof fn lemma_same_letter(x: char, y: char, lower: bool)
    requires
        in_case(x, lower),
        in_case(y, lower),
        letter_index(x) >= 0,
        letter_index(x) == letter_index(y),
    ensures
        x == y,
{
    assert(x as int == y as int);
}

proof fn lemma_occurrences_zero(s: Seq<char>, c: char, j: int)
    requires
        occurrences(s, c) == 0,
        0 <= j < s.len(),
    ensures
        s[j] != c,
    decreases s.len(),
{
    if j < s.len() - 1 {
        lemma_occurrences_zero(s.drop_last(), c, j);
        assert(s.drop_last()[j] == s[j]);
    }
}

proof fn lemma_miss_grows(a: Seq<char>, b: Seq<char>, j: int, k: int, c: char)
    requires
        0 <= j <= k,
    ensures
        miss_count(a, b, j, c) <= miss_count(a, b, k, c),
    decreases k - j,
{
    if j < k {
        lemma_miss_grows(a, b, j, k - 1, c);
    }
}

/// A letter of a secret `s` never shares a bit with a letter of guess `g`
/// that is gray and nowhere else shown.
proof fn lemma_absent_clear(s: Seq<char>, g: Seq<char>, k: int, lower: bool)
    requires
        g.len() == s.len(),
        cased(s, g, lower),
        0 <= k <= s.len(),
    ensures
        mask_of(s) & absent_mask(g, outcome(s, g), s.len() as int, k) == 0,
    decreases k,
{
    let n = s.len() as int;
    let o = outcome(s, g);
    let m = mask_of(s);
    if k <= 0 {
        assert(m & 0u64 == 0) by (bit_vector);
    } else {
        lemma_absent_clear(s, g, k - 1, lower);
        let a = absent_mask(g, o, n, k - 1);
        let c = g[k - 1];
        let t = if o[k - 1] == TileOutcome::Gray && hits(g, o, n, c) == 0 {
            bit_of(c)
        } else {
            0
        };
        if o[k - 1] == TileOutcome::Gray && hits(g, o, n, c) == 0 {
            let avail = occurrences(s, c) - green_count(s, g, n, c);
            lemma_miss_grows(s, g, k, n, c);
            lemma_hits_split(s, g, n, c, avail);
            assert(occurrences(s, c) == 0);
            if letter_index(c) >= 0 {
                lemma_mask_holds(s, c);
                if holds_letter(s, c) {
                    let j = choose|j: int| 0 <= j < s.len() && letter_index(#[trigger] s[j]) == letter_index(c);
                    lemma_same_letter(c, s[j], lower);
                    lemma_occurrences_zero(s, c, j);
                }
            } else {
                assert(m & 0u64 == 0) by (bit_vector);
            }
        } else {
            assert(m & 0u64 == 0) by (bit_vector);
        }
        assert(m & a == 0 && m & t == 0 ==> m & (a | t) == 0) by (bit_vector);
    }
}

/// Knowledge that admits the secret `s` still admits it after ingesting the
/// tiles that guess `g` truly shows against `s`, provided the letters of
/// both words share one case.
pub proof fn lemma_ingest_keeps_secret(k: Pattern, s: Seq<char>, g: Seq<char>, k2: Pattern)
    requires
        k.admits(s),
        g.len() == s.len(),
        single_case(s, g),
        k.ingests(g, outcome(s, g), k2),
    ensures
        k2.admits(s),
{
    let o = outcome(s, g);
    let n = s.len() as int;
    let lower = cased(s, g, true);
    let m = mask_of(s);
    let d = k.disallowed;
    let a = absent_mask(g, o, n, n);
    lemma_absent_clear(s, g, n, lower);
    assert(m & d == 0 && m & a == 0 ==> m & (d | a) == 0) by (bit_vector);
    lemma_outcome_counts(s, g);
    assert forall|i: int| 0 <= i < k2.must_contain@.len() implies occurrences(
        s,
        #[trigger] k2.must_contain@[i].0,
    ) >= k2.must_contain@[i].1 by {
        let c = k2.must_contain@[i].0;
        lemma_required_entry(k2.must_contain@, i);
        lemma_required_met(k.must_contain@, s, c);
        assert(hits(g, o, n, c) <= occurrences(s, c));
    }
    assert forall|i: int|
        0 <= i < k2.constraints@.len() && #[trigger] k2.constraints@[i] is Some implies obeys(
        s[i],
        k2.constraints@[i]->Some_0,
    ) by {
        if i < n {
            let prev = constraint_at(k.constraints@, i);
            let b = bit_of(g[i]);
            let bs = bit_of(s[i]);
            if o[i] != TileOutcome::Green && d & b == 0 {
                assert(g[i] != s[i]);
                if letter_index(s[i]) >= 0 {
                    lemma_bits_meet(g[i], s[i]);
                    if letter_index(g[i]) == letter_index(s[i]) {
                        lemma_same_letter(s[i], g[i], lower);
                    }
                } else {
                    assert(b & 0u64 == 0) by (bit_vector);
                }
                assert(b & bs == 0);
                match prev {
                    Some(PlaceConstraint::IsNotChars(x)) => {
                        assert(x & bs == 0 && b & bs == 0 ==> (x | b) & bs == 0) by (bit_vector);
                    },
                    _ => {},
                }
            }
        }
    }
}

#[verifier::external_type_specification]
#[verifier::external_body]
#[verifier::reject_recursive_types(T)]
#[verifier::reject_recursive_types(N)]
pub struct ExCounter<T: std::hash::Hash + Eq, N>(counter::Counter<T, N>);

/// What a letter counter holds: each letter as often as it was counted.
pub uninterp spec fn letter_counts(c: counter::Counter<char, usize>) -> Multiset<char>;

/// Relies on `counter::Counter`'s `FromIterator`: every item is counted once
/// per occurrence.
#[verifier::external_body]
fn count_letters(word: &Vec<char>) -> (r: counter::Counter<char, usize>)
    ensures
        letter_counts(r) == word@.to_multiset(),
{
    word.iter().copied().collect()
}

/// Relies on `counter::Counter`'s `Index`: the count of a key, zero for a
/// key that is missing.
#[verifier::external_body]
fn letters_left(counts: &counter::Counter<char, usize>, c: &char) -> (r: usize)
    ensures
        r as nat == letter_counts(*counts).count(*c),
{
    counts[c]
}

/// Relies on `counter::Counter`'s `IndexMut`: the count of `c` is lowered by
/// one in place.
#[verifier::external_body]
fn take_letter(counts: &mut counter::Counter<char, usize>, c: &char)
    requires
        letter_counts(*old(counts)).count(*c) > 0,
    ensures
        letter_counts(*final(counts)) == letter_counts(*old(counts)).remove(*c),
{
    counts[c] -= 1;
}

/// Relies on rand's `thread_rng` and `Rng::gen_range`: a number drawn from
/// `0..len`, which must not be empty.
#[verifier::external_body]
fn random_below(len: usize) -> (r: usize)
    requires
        len > 0,
    ensures
        r < len,
{
    rand::Rng::gen_range(&mut rand::thread_rng(), 0..len)
}

/// The words of `ws` that `p` admits, in order.
pub open spec fn admitted(ws: Seq<Seq<char>>, p: Pattern) -> Seq<Seq<char>>
    decreases ws.len(),
{
    if ws.len() == 0 {
        Seq::empty()
    } else if p.admits(ws.last()) {
        admitted(ws.drop_last(), p).push(ws.last())
    } else {
        admitted(ws.drop_last(), p)
    }
}

/// The positions in `ws` of the words that `p` admits, in increasing order.
pub open spec fn admitted_positions(ws: Seq<Seq<char>>, p: Pattern) -> Seq<int>
    decreases ws.len(),
{
    if ws.len() == 0 {
        Seq::empty()
    } else if p.admits(ws.last()) {
        admitted_positions(ws.drop_last(), p).push(ws.len() - 1)
    } else {
        admitted_positions(ws.drop_last(), p)
    }
}

/// The words of `ws` that have `WORD_LENGTH` letters, in order.
pub open spec fn proper_words(ws: Seq<Seq<char>>) -> Seq<Seq<char>>
    decreases ws.len(),
{
    if ws.len() == 0 {
        Seq::empty()
    } else if ws.last().len() == WORD_LENGTH {
        proper_words(ws.drop_last()).push(ws.last())
    } else {
        proper_words(ws.drop_last())
    }
}

/// The letters of each word of `ws`.
pub open spec fn letters_of(ws: Seq<Word>) -> Seq<Seq<char>> {
    ws.map_values(|w: Word| w@)
}

/// Relies on std's `FromIterator<&char>` for `String`: the string holds the
/// characters in order.
#[verifier::external_body]
fn chars_to_string(v: &Vec<char>) -> (r: String)
    ensures
        r@ == v@,
{
    v.iter().collect()
}

/// A word: its letters in order, with the bitmask of the letters it holds.
#[derive(Debug)]
pub struct Word {
    word: Vec<char>,
    letters_mask: LetterBitmask,
}

impl View for Word {
    type V = Seq<char>;

    closed spec fn view(&self) -> Seq<char> {
        self.word@
    }
}

impl Word {
    #[verifier::type_invariant]
    spec fn inv(&self) -> bool {
        self.letters_mask == mask_of(self.word@)
    }

    /// A word of the given letters.
    pub fn from_chars(word: Vec<char>) -> (r: Word)
        ensures
            r@ == word@,
    {
        let mask = compute_bitmask(&word);
        Word { word, letters_mask: mask }
    }

    /// A word of the characters of `s`.
    pub fn new(s: &str) -> (r: Word)
        ensures
            r@ == s@,
    {
        let mut word: Vec<char> = Vec::new();
        for ch in it: s.chars()
            invariant
                it.seq() == s@,
                word@ == s@.take(it.index() as int),
        {
            proof {
                assert(s@.take(it.index() + 1) =~= s@.take(it.index() as int).push(ch));
            }
            word.push(ch);
        }
        proof {
            assert(word@ =~= s@);
        }
        Word::from_chars(word)
    }

    /// A copy of this word.
    pub fn duplicate(&self) -> (r: Word)
        ensures
            r@ == self@,
    {
        proof {
            use_type_invariant(self);
        }
        let mut word: Vec<char> = Vec::new();
        let mut i: usize = 0;
        while i < self.word.len()
            invariant
                i <= self.word@.len(),
                word@ == self.word@.subrange(0, i as int),
            decreases self.word@.len() - i,
        {
            word.push(self.word[i]);
            i = i + 1;
        }
        proof {
            assert(word@ =~= self.word@);
        }
        Word { word, letters_mask: self.letters_mask }
    }

    /// Whether both words hold the same letters in the same order.
    pub fn same_letters(&self, other: &Word) -> (r: bool)
        ensures
            r == (self@ == other@),
    {
        if self.word.len() != other.word.len() {
            return false;
        }
        let mut i: usize = 0;
        while i < self.word.len()
            invariant
                i <= self.word@.len(),
                self.word@.len() == other.word@.len(),
                forall|j: int| 0 <= j < i ==> self.word@[j] == other.word@[j],
            decreases self.word@.len() - i,
        {
            if self.word[i] != other.word[i] {
                return false;
            }
            i = i + 1;
        }
        proof {
            assert(self.word@ =~= other.word@);
        }
        true
    }

    /// The letters of this word, in order.
    pub fn letters(&self) -> (r: Vec<char>)
        ensures
            r@ == self@,
    {
        let mut r: Vec<char> = Vec::new();
        let mut i: usize = 0;
        while i < self.word.len()
            invariant
                i <= self.word@.len(),
                r@ == self.word@.take(i as int),
            decreases self.word@.len() - i,
        {
            r.push(self.word[i]);
            proof {
                assert(r@ =~= self.word@.take(i + 1));
            }
            i = i + 1;
        }
        proof {
            assert(r@ =~= self.word@);
        }
        r
    }

    /// Number of letters.
    pub fn len(&self) -> (r: usize)
        ensures
            r == self@.len(),
    {
        self.word.len()
    }

    /// Whether the word holds letter `ch`, case-insensitively; never for a
    /// character that is not an ASCII letter.
    pub fn has_letter(&self, ch: &char) -> (r: bool)
        ensures
            r == (mask_of(self@) & bit_of(*ch) != 0),
            letter_index(*ch) >= 0 ==> (r == holds_letter(self@, *ch)),
            letter_index(*ch) < 0 ==> !r,
    {
        proof {
            use_type_invariant(self);
            if letter_index(*ch) >= 0 {
                lemma_mask_holds(self@, *ch);
            } else {
                let m = mask_of(self@);
                assert(m & 0u64 == 0) by (bit_vector);
            }
        }
        self.letters_mask & char_bitmask(ch) != 0
    }

    /// Number of occurrences of character `ch`.
    pub fn num_occurrences(&self, ch: &char) -> (r: usize)
        ensures
            r == occurrences(self@, *ch),
    {
        let mut count: usize = 0;
        let mut i: usize = 0;
        while i < self.word.len()
            invariant
                i <= self.word@.len(),
                count == occurrences(self.word@.subrange(0, i as int), *ch),
                count <= i,
            decreases self.word@.len() - i,
        {
            proof {
                assert(self.word@.subrange(0, i + 1).drop_last() =~= self.word@.subrange(0, i as int));
            }
            if self.word[i] == *ch {
                count = count + 1;
            }
            i = i + 1;
        }
        proof {
            assert(self.word@.subrange(0, i as int) =~= self.word@);
        }
        count
    }

    /// Whether the letter at `idx` satisfies `cons`.
    pub fn obeys_constraint(&self, cons: (&usize, &PlaceConstraint)) -> (r: bool)
        requires
            *cons.0 < self@.len(),
        ensures
            r == obeys(self@[*cons.0 as int], *cons.1),
    {
        let (idx, cons) = cons;
        let value = self.word[*idx];
        match cons {
            PlaceConstraint::IsChar(ch) => *ch == value,
            PlaceConstraint::IsNotChars(chars) => *chars & char_bitmask(&value) == 0,
        }
    }

    /// Whether this word satisfies everything that `pattern` states.
    pub fn matches(&self, pattern: &Pattern) -> (r: bool)
        requires
            pattern.constraints@.len() <= self@.len(),
        ensures
            r == pattern.admits(self@),
    {
        proof {
            use_type_invariant(self);
        }
        if self.letters_mask & pattern.disallowed != 0 {
            return false;
        }
        let mut i: usize = 0;
        while i < pattern.must_contain.len()
            invariant
                i <= pattern.must_contain@.len(),
                forall|j: int|
                    0 <= j < i ==> occurrences(self@, #[trigger] pattern.must_contain@[j].0)
                        >= pattern.must_contain@[j].1,
            decreases pattern.must_contain@.len() - i,
        {
            let (ch, count) = pattern.must_contain[i];
            if self.num_occurrences(&ch) < count {
                return false;
            }
            i = i + 1;
        }
        let mut k: usize = 0;
        while k < pattern.constraints.len()
            invariant
                k <= pattern.constraints@.len(),
                pattern.constraints@.len() <= self@.len(),
                forall|j: int|
                    0 <= j < k && #[trigger] pattern.constraints@[j] is Some ==> obeys(
                        self@[j],
                        pattern.constraints@[j]->Some_0,
                    ),
            decreases pattern.constraints@.len() - k,
        {
            match &pattern.constraints[k] {
                Some(cons) => {
                    if !self.obeys_constraint((&k, cons)) {
                        return false;
                    }
                },
                None => {},
            }
            k = k + 1;
        }
        true
    }

    /// The tiles of `guess` against this word as the secret: exact hits
    /// first, then the remaining copies of each letter go to the misses from
    /// left to right.
    pub fn outcome_of_guess(&self, guess: &Word) -> (r: Vec<TileOutcome>)
        requires
            guess@.len() == self@.len(),
        ensures
            r@ == outcome(self@, guess@),
    {
        let ghost s = self@;
        let ghost g = guess@;
        let n = self.word.len();
        let mut outcomes: Vec<TileOutcome> = Vec::new();
        let mut k: usize = 0;
        while k < n
            invariant
                n == s.len(),
                s == self.word@,
                k <= n,
                outcomes@.len() == k,
                forall|j: int| 0 <= j < k ==> outcomes@[j] == TileOutcome::Gray,
            decreases n - k,
        {
            outcomes.push(TileOutcome::Gray);
            k = k + 1;
        }
        let mut counts = count_letters(&self.word);
        proof {
            assert forall|c: char| letter_counts(counts).count(c) == occurrences(s, c) by {
                lemma_occurrences_multiset(s, c);
            }
        }
        let mut idx: usize = 0;
        while idx < n
            invariant
                n == s.len(),
                n == g.len(),
                s == self.word@,
                g == guess.word@,
                idx <= n,
                outcomes@.len() == n,
                forall|c: char|
                    #[trigger] letter_counts(counts).count(c) + green_count(s, g, idx as int, c)
                        == occurrences(s, c),
                forall|j: int|
                    0 <= j < n ==> #[trigger] outcomes@[j] == if j < idx && g[j] == s[j] {
                        TileOutcome::Green
                    } else {
                        TileOutcome::Gray
                    },
            decreases n - idx,
        {
            if self.word[idx] == guess.word[idx] {
                proof {
                    let c = s[idx as int];
                    lemma_green_bounded(s, g, idx + 1, c);
                    lemma_occurrences_prefix(s, idx + 1, c);
                }
                outcomes.set(idx, TileOutcome::Green);
                take_letter(&mut counts, &self.word[idx]);
            }
            idx = idx + 1;
        }
        let mut idx: usize = 0;
        while idx < n
            invariant
                n == s.len(),
                n == g.len(),
                s == self.word@,
                g == guess.word@,
                idx <= n,
                outcomes@.len() == n,
                forall|c: char|
                    #[trigger] letter_counts(counts).count(c) == if occurrences(s, c) >= green_count(
                        s,
                        g,
                        n as int,
                        c,
                    ) + miss_count(s, g, idx as int, c) {
                        occurrences(s, c) - green_count(s, g, n as int, c) - miss_count(
                            s,
                            g,
                            idx as int,
                            c,
                        )
                    } else {
                        0
                    },
                forall|j: int|
                    0 <= j < n ==> #[trigger] outcomes@[j] == if j < idx {
                        outcome_at(s, g, j)
                    } else if g[j] == s[j] {
                        TileOutcome::Green
                    } else {
                        TileOutcome::Gray
                    },
            decreases n - idx,
        {
            let ch = guess.word[idx];
            if outcomes[idx] == TileOutcome::Gray && letters_left(&counts, &ch) > 0 {
                take_letter(&mut counts, &ch);
                outcomes.set(idx, TileOutcome::Yellow);
            }
            idx = idx + 1;
        }
        proof {
            assert(outcomes@ =~= outcome(s, g));
        }
        outcomes
    }

    /// The word as a string.
    pub fn get_word(&self) -> (r: String)
        ensures
            r@ == self@,
    {
        chars_to_string(&self.word)
    }
}

impl From<&str> for Word {
    fn from(s: &str) -> Word {
        Word::new(s)
    }
}

impl vstd::std_specs::convert::FromSpecImpl<&str> for Word {
    open spec fn obeys_from_spec() -> bool {
        false
    }

    open spec fn from_spec(v: &str) -> Word {
        arbitrary()
    }
}

impl From<String> for Word {
    fn from(s: String) -> Word {
        Word::new(s.as_str())
    }
}

impl vstd::std_specs::convert::FromSpecImpl<String> for Word {
    open spec fn obeys_from_spec() -> bool {
        false
    }

    open spec fn from_spec(v: String) -> Word {
        arbitrary()
    }
}

/// A list of candidate words, each of `WORD_LENGTH` letters.
pub struct Wordlist {
    words: Vec<Word>,
}

/// A list obtained by filtering another; it has the same shape.
pub type SubWordlist = Wordlist;

impl View for Wordlist {
    type V = Seq<Seq<char>>;

    closed spec fn view(&self) -> Seq<Seq<char>> {
        letters_of(self.words@)
    }
}

impl Wordlist {
    #[verifier::type_invariant]
    spec fn inv(&self) -> bool {
        forall|i: int| 0 <= i < self.words@.len() ==> (#[trigger] self.words@[i])@.len() == WORD_LENGTH
    }

    /// The list of the words of `words` that have `WORD_LENGTH` letters, in
    /// their order; the others are left out.
    pub fn from_words(words: Vec<Word>) -> (r: Wordlist)
        ensures
            r@ == proper_words(letters_of(words@)),
    {
        let ghost src = letters_of(words@);
        let mut kept: Vec<Word> = Vec::new();
        let mut i: usize = 0;
        while i < words.len()
            invariant
                src == letters_of(words@),
                i <= words@.len(),
                letters_of(kept@) == proper_words(src.take(i as int)),
                forall|j: int| 0 <= j < kept@.len() ==> (#[trigger] kept@[j])@.len() == WORD_LENGTH,
            decreases words@.len() - i,
        {
            proof {
                assert(src.take(i + 1).drop_last() =~= src.take(i as int));
            }
            if words[i].len() == WORD_LENGTH {
                let w = words[i].duplicate();
                let ghost before = kept@;
                kept.push(w);
                proof {
                    assert(letters_of(kept@) =~= letters_of(before).push(w@));
                }
            }
            i = i + 1;
        }
        proof {
            assert(src.take(i as int) =~= src);
        }
        Wordlist { words: kept }
    }

    /// Number of words.
    pub fn len(&self) -> (r: usize)
        ensures
            r == self@.len(),
    {
        self.words.len()
    }

    /// The word at position `i`.
    pub fn get(&self, i: usize) -> (r: &Word)
        requires
            i < self@.len(),
        ensures
            r@ == self@[i as int],
            r@.len() == WORD_LENGTH,
    {
        proof {
            use_type_invariant(self);
        }
        &self.words[i]
    }

    /// All words, in order.
    pub fn possible_words(&self) -> (r: &Vec<Word>)
        ensures
            letters_of(r@) == self@,
    {
        &self.words
    }

    /// All words, in order.
    pub fn get_word_slice(&self) -> (r: &Vec<Word>)
        ensures
            letters_of(r@) == self@,
    {
        &self.words
    }

    /// A copy of this list.
    pub fn duplicate(&self) -> (r: Wordlist)
        ensures
            r@ == self@,
    {
        proof {
            use_type_invariant(self);
        }
        let mut words: Vec<Word> = Vec::new();
        let mut i: usize = 0;
        while i < self.words.len()
            invariant
                i <= self.words@.len(),
                letters_of(words@) == self@.take(i as int),
                forall|j: int| 0 <= j < words@.len() ==> (#[trigger] words@[j])@.len() == WORD_LENGTH,
                forall|j: int|
                    0 <= j < self.words@.len() ==> (#[trigger] self.words@[j])@.len() == WORD_LENGTH,
            decreases self.words@.len() - i,
        {
            let w = self.words[i].duplicate();
            let ghost before = words@;
            words.push(w);
            proof {
                assert(letters_of(words@) =~= letters_of(before).push(w@));
                assert(self@.take(i + 1) =~= self@.take(i as int).push(w@));
            }
            i = i + 1;
        }
        proof {
            assert(self@.take(i as int) =~= self@);
        }
        Wordlist { words }
    }

    /// The word of this list spelled `word`, if there is one.
    pub fn get_word(&self, word: &str) -> (r: Option<Word>)
        ensures
            r is None <==> !self@.contains(word@),
            r matches Some(w) ==> w@ == word@ && w@.len() == WORD_LENGTH,
    {
        proof {
            use_type_invariant(self);
        }
        let target = Word::new(word);
        let mut i: usize = 0;
        while i < self.words.len()
            invariant
                i <= self.words@.len(),
                target@ == word@,
                forall|j: int| 0 <= j < i ==> self@[j] != word@,
                forall|j: int|
                    0 <= j < self.words@.len() ==> (#[trigger] self.words@[j])@.len() == WORD_LENGTH,
            decreases self.words@.len() - i,
        {
            if self.words[i].same_letters(&target) {
                proof {
                    assert(self@[i as int] == self.words@[i as int]@);
                    assert(self@.contains(word@));
                }
                return Some(self.words[i].duplicate());
            }
            i = i + 1;
        }
        None
    }

    /// A word drawn at random, or `None` when the list is empty.
    pub fn random_word(&self) -> (r: Option<Word>)
        ensures
            r is None <==> self@.len() == 0,
            r matches Some(w) ==> self@.contains(w@) && w@.len() == WORD_LENGTH,
    {
        proof {
            use_type_invariant(self);
        }
        if self.words.len() == 0 {
            return None;
        }
        let i = random_below(self.words.len());
        let w = self.words[i].duplicate();
        proof {
            assert(self@[i as int] == w@);
        }
        Some(w)
    }

    /// The sub-list of the words that `pattern` admits, in their order.
    pub fn filter_pattern(&self, pattern: &Pattern) -> (r: Wordlist)
        requires
            pattern.constraints@.len() <= WORD_LENGTH,
        ensures
            r@ == admitted(self@, *pattern),
    {
        proof {
            use_type_invariant(self);
        }
        let mut words: Vec<Word> = Vec::new();
        let mut i: usize = 0;
        while i < self.words.len()
            invariant
                i <= self.words@.len(),
                pattern.constraints@.len() <= WORD_LENGTH,
                letters_of(words@) == admitted(self@.take(i as int), *pattern),
                forall|j: int| 0 <= j < words@.len() ==> (#[trigger] words@[j])@.len() == WORD_LENGTH,
                forall|j: int|
                    0 <= j < self.words@.len() ==> (#[trigger] self.words@[j])@.len() == WORD_LENGTH,
            decreases self.words@.len() - i,
        {
            proof {
                assert(self@.take(i + 1).drop_last() =~= self@.take(i as int));
                assert(self@[i as int] == self.words@[i as int]@);
            }
            if self.words[i].matches(pattern) {
                let w = self.words[i].duplicate();
                let ghost before = words@;
                words.push(w);
                proof {
                    assert(letters_of(words@) =~= letters_of(before).push(w@));
                }
            }
            i = i + 1;
        }
        proof {
            assert(self@.take(i as int) =~= self@);
        }
        Wordlist { words }
    }

    /// Number of words that `pattern` admits.
    pub fn count_matching(&self, pattern: &Pattern) -> (r: usize)
        requires
            pattern.constraints@.len() <= WORD_LENGTH,
        ensures
            r == admitted(self@, *pattern).len(),
    {
        proof {
            use_type_invariant(self);
        }
        let mut count: usize = 0;
        let mut i: usize = 0;
        while i < self.words.len()
            invariant
                i <= self.words@.len(),
                pattern.constraints@.len() <= WORD_LENGTH,
                count == admitted(self@.take(i as int), *pattern).len(),
                count <= i,
                forall|j: int|
                    0 <= j < self.words@.len() ==> (#[trigger] self.words@[j])@.len() == WORD_LENGTH,
            decreases self.words@.len() - i,
        {
            proof {
                assert(self@.take(i + 1).drop_last() =~= self@.take(i as int));
                assert(self@[i as int] == self.words@[i as int]@);
            }
            if self.words[i].matches(pattern) {
                count = count + 1;
            }
            i = i + 1;
        }
        proof {
            assert(self@.take(i as int) =~= self@);
        }
        count
    }

    /// The positions of the words that `pattern` admits, in increasing order.
    pub fn matching_positions(&self, pattern: &Pattern) -> (r: Vec<usize>)
        requires
            pattern.constraints@.len() <= WORD_LENGTH,
        ensures
            r@.map_values(|x: usize| x as int) == admitted_positions(self@, *pattern),
    {
        proof {
            use_type_invariant(self);
        }
        let mut positions: Vec<usize> = Vec::new();
        let mut i: usize = 0;
        while i < self.words.len()
            invariant
                i <= self.words@.len(),
                pattern.constraints@.len() <= WORD_LENGTH,
                positions@.map_values(|x: usize| x as int) == admitted_positions(
                    self@.take(i as int),
                    *pattern,
                ),
                forall|j: int|
                    0 <= j < self.words@.len() ==> (#[trigger] self.words@[j])@.len() == WORD_LENGTH,
            decreases self.words@.len() - i,
        {
            proof {
                assert(self@.take(i + 1).drop_last() =~= self@.take(i as int));
                assert(self@[i as int] == self.words@[i as int]@);
            }
            if self.words[i].matches(pattern) {
                let ghost before = positions@;
                positions.push(i);
                proof {
                    assert(positions@.map_values(|x: usize| x as int) =~= before.map_values(
                        |x: usize| x as int,
                    ).push(i as int));
                }
            }
            i = i + 1;
        }
        proof {
            assert(self@.take(i as int) =~= self@);
        }
        positions
    }
}

} // verus!
