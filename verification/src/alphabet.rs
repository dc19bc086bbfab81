//! Ordered character alphabets for base-N encoding.
//!
//! An [`Alphabet`] is an ordered sequence of distinct characters; its length
//! is the base of the numeral system the codec works in.  Lookups in both
//! directions — ordinal to character and character to ordinal — are defined
//! only on well-formed alphabets, and a character outside the alphabet is a
//! caller error for `index_of`; `try_index_of` reports it recoverably.

use vstd::prelude::*;

verus! {

/// No character occurs twice.
pub open spec fn distinct_chars(s: Seq<char>) -> bool {
    forall|i: int, j: int| 0 <= i < j < s.len() ==> s[i] != s[j]
}

/// An ordered set of distinct characters serving as the digits of a base-N
/// numeral system; `base` caches the character count.
#[derive(Debug, Clone)]
pub struct Alphabet {
    /// The characters, in digit order.
    pub elements: String,
    /// The number of characters: the base of the numeral system.
    pub base: usize,
}

impl Alphabet {
    /// The characters of the alphabet, in order.
    pub open spec fn chars(&self) -> Seq<char> {
        self.elements@
    }

    /// Well-formedness: `base` is the character count, there are at least
    /// two characters — fewer cannot carry positional information — no
    /// character repeats, and the base stays far below any cast limit.
    pub open spec fn wf(&self) -> bool {
        &&& self.base == self.chars().len()
        &&& 2 <= self.base <= 0x7FFF_FFFF
        &&& distinct_chars(self.chars())
    }

    /// Builds the alphabet over the given characters.  Handing it duplicate
    /// characters would make `index_of` ambiguous, so the contract rejects
    /// them outright rather than silently shrinking the effective base.
    pub fn new(elements: &str) -> (r: Self)
        requires
            2 <= elements@.len() <= 0x7FFF_FFFF,
            distinct_chars(elements@),
        ensures
            r.wf(),
            r.chars() == elements@,
    {
        let base = elements.unicode_len();
        Alphabet { elements: String::from_str(elements), base }
    }

    /// The character at ordinal `pos`.  Positions at or beyond the base are
    /// a caller error: this lookup only ever receives ordinals produced by
    /// the codec itself.
    pub fn value_of(&self, pos: usize) -> (c: char)
        requires
            self.wf(),
            pos < self.base,
        ensures
            c == self.chars()[pos as int],
    {
        self.elements.as_str().get_char(pos)
    }

    /// The ordinal of `c`, which must belong to the alphabet; a character
    /// outside it is a caller error at this layer.
    pub fn index_of(&self, c: char) -> (r: usize)
        requires
            self.wf(),
            self.chars().contains(c),
        ensures
            r < self.base,
            self.chars()[r as int] == c,
    {
        match self.try_index_of(c) {
            Some(i) => i,
            None => {
                proof {
                    assert(false);
                }
                0
            },
        }
    }

    /// The ordinal of `c`, or `None` when `c` is not in the alphabet.
    pub fn try_index_of(&self, c: char) -> (r: Option<usize>)
        requires
            self.wf(),
        ensures
            match r {
                Some(i) => i < self.base && self.chars()[i as int] == c,
                None => !self.chars().contains(c),
            },
    {
        let s = self.elements.as_str();
        let mut i: usize = 0;
        while i < self.base
            invariant
                self.wf(),
                i <= self.base,
                s@ == self.chars(),
                forall|j: int| 0 <= j < i ==> self.chars()[j] != c,
            decreases self.base - i,
        {
            if s.get_char(i) == c {
                return Some(i);
            }
            i = i + 1;
        }
        None
    }
}

/// In a duplicate-free alphabet, `index_of` at the specification level picks
/// out exactly the position a character stands at.
pub proof fn lemma_alpha_index_of(alpha: Seq<char>, i: int)
    requires
        distinct_chars(alpha),
        0 <= i < alpha.len(),
    ensures
        alpha.index_of(alpha[i]) == i,
{
    assert(alpha.contains(alpha[i]));
    let j = alpha.index_of(alpha[i]);
    assert(0 <= j < alpha.len() && alpha[j] == alpha[i]);
}

} // verus!
