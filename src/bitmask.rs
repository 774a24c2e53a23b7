use vstd::prelude::*;

verus! {

/// Letter bitmask type: bit `k` stands for the `k`-th letter of the alphabet.
pub type LetterBitmask = u64;

/// Position of `c` in the alphabet, case-insensitively; `-1` for a character
/// that is not an ASCII letter.
pub open spec fn letter_index(c: char) -> int {
    if 'a' <= c && c <= 'z' {
        (c as int) - ('a' as int)
    } else if 'A' <= c && c <= 'Z' {
        (c as int) - ('A' as int)
    } else {
        -1
    }
}

/// The single bit that stands for letter `c` (no bit for a non-letter).
pub open spec fn bit_of(c: char) -> u64 {
    if letter_index(c) >= 0 {
        1u64 << (letter_index(c) as u64)
    } else {
        0
    }
}

/// The union of the bits of every character of `s`.
pub open spec fn mask_of(s: Seq<char>) -> u64
    decreases s.len(),
{
    if s.len() == 0 {
        0
    } else {
        mask_of(s.drop_last()) | bit_of(s.last())
    }
}

/// Whether some character of `s` is the same letter as `c`, ignoring case.
pub open spec fn holds_letter(s: Seq<char>, c: char) -> bool {
    exists|i: int| 0 <= i < s.len() && letter_index(#[trigger] s[i]) == letter_index(c)
}

pub(crate) proof fn lemma_bits_meet(d: char, c: char)
    requires
        letter_index(c) >= 0,
    ensures
        (bit_of(d) & bit_of(c) != 0) == (letter_index(d) == letter_index(c)),
{
    let j = letter_index(c) as u64;
    if letter_index(d) >= 0 {
        let i = letter_index(d) as u64;
        assert(i < 26 && j < 26 ==> (((1u64 << i) & (1u64 << j)) != 0) == (i == j)) by (bit_vector);
    } else {
        assert((0u64 & (1u64 << j)) == 0) by (bit_vector);
    }
}

/// For a letter `c`, the bitmask of `s` has the bit of `c` exactly when `s`
/// holds that letter in either case.
pub proof fn lemma_mask_holds(s: Seq<char>, c: char)
    requires
        letter_index(c) >= 0,
    ensures
        (mask_of(s) & bit_of(c) != 0) == holds_letter(s, c),
    decreases s.len(),
{
    if s.len() > 0 {
        let t = s.drop_last();
        lemma_mask_holds(t, c);
        lemma_bits_meet(s.last(), c);
        let a = mask_of(t);
        let b = bit_of(s.last());
        let x = bit_of(c);
        assert(((a | b) & x != 0) == (a & x != 0 || b & x != 0)) by (bit_vector);
        if holds_letter(t, c) {
            let i = choose|i: int| 0 <= i < t.len() && letter_index(#[trigger] t[i]) == letter_index(c);
            assert(s[i] == t[i]);
        }
        if holds_letter(s, c) {
            let i = choose|i: int| 0 <= i < s.len() && letter_index(#[trigger] s[i]) == letter_index(c);
            if i < s.len() - 1 {
                assert(t[i] == s[i]);
            }
        }
    } else {
        let x = bit_of(c);
        assert(0u64 & x == 0) by (bit_vector);
    }
}

/// The bit for a single letter; zero for a character that is not an ASCII letter.
pub fn char_bitmask(ch: &char) -> (r: LetterBitmask)
    ensures
        r == bit_of(*ch),
{
    let c = *ch;
    if 'a' <= c && c <= 'z' {
        let k: u32 = (c as u32) - ('a' as u32);
        1u64 << k
    } else if 'A' <= c && c <= 'Z' {
        let k: u32 = (c as u32) - ('A' as u32);
        1u64 << k
    } else {
        0
    }
}

/// The union of the bits of all letters of `word`.
pub fn compute_bitmask(word: &Vec<char>) -> (r: LetterBitmask)
    ensures
        r == mask_of(word@),
{
    let mut output: u64 = 0;
    let mut i: usize = 0;
    while i < word.len()
        invariant
            i <= word.len(),
            output == mask_of(word@.subrange(0, i as int)),
        decreases word.len() - i,
    {
        let bit = char_bitmask(&word[i]);
        proof {
            assert(word@.subrange(0, i + 1).drop_last() =~= word@.subrange(0, i as int));
        }
        output = output | bit;
        i = i + 1;
    }
    proof {
        assert(word@.subrange(0, i as int) =~= word@);
    }
    output
}

/// Letter bitmasks computed from a single character or from a word.
pub trait CanRepresentLetterBitmask: Sized {
    fn char_bitmask(ch: &char) -> Self;

    fn compute_bitmask(word: &Vec<char>) -> Self;
}

impl CanRepresentLetterBitmask for LetterBitmask {
    fn char_bitmask(ch: &char) -> Self {
        char_bitmask(ch)
    }

    fn compute_bitmask(word: &Vec<char>) -> Self {
        compute_bitmask(word)
    }
}

/// Conversion of a character vector to the bitmask of its letters.
pub trait CanConvertToLetterBitmask {
    fn to_letter_bitmask(&self) -> LetterBitmask;
}

impl CanConvertToLetterBitmask for Vec<char> {
    fn to_letter_bitmask(&self) -> LetterBitmask {
        compute_bitmask(self)
    }
}

} // verus!
