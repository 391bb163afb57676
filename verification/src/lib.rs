//! Worst-case ranking of guesses for a fixed-length word-guessing game.
//!
//! Words over a configurable alphabet are encoded as per-position bitmasks,
//! a cache maps every realizable "required letter set" to the solutions that
//! contain it, and guesses are ranked by the adversarial (worst-case) number
//! of solutions that would remain consistent with their feedback.
use vstd::prelude::*;

pub mod cache;
pub mod masks;
pub mod rank;
pub mod simulate;
pub mod thin_array;
pub mod word;

verus! {

/// A set of alphabet letters, one bit per letter: bit `i` stands for the
/// `i`-th letter of the alphabet.
pub type Charmask = u32;

/// Build-time configuration of the game: how long a word is and how many
/// letters the alphabet has (letters are `'A'`, `'B'`, ... in order).
#[derive(Clone, Copy, PartialEq, Eq, Structural, Debug)]
pub struct Config {
    pub word_length: usize,
    pub alphabet_len: u32,
}

impl Config {
    /// A configuration is usable when a word cannot contain every alphabet
    /// letter (so the whole-alphabet mask is free to serve as a reserved
    /// cache key) and all masks fit in a `Charmask`.
    pub open spec fn wf(self) -> bool {
        &&& 1 <= self.word_length
        &&& (self.word_length as int) < (self.alphabet_len as int)
        &&& self.alphabet_len <= 26
    }

    /// The mask holding every letter of the alphabet.
    pub open spec fn spec_all_mask(self) -> Charmask {
        crate::masks::lowmask(self.alphabet_len)
    }

    /// Number of distinct cache keys: every subset of the alphabet.
    pub open spec fn spec_n_keys(self) -> int {
        (1u64 << self.alphabet_len) as int
    }

    pub fn new(word_length: usize, alphabet_len: u32) -> (r: Option<Config>)
        ensures
            match r {
                Some(c) => c.wf() && c.word_length == word_length && c.alphabet_len
                    == alphabet_len,
                None => !(Config { word_length, alphabet_len }).wf(),
            },
    {
        if 1 <= word_length && alphabet_len <= 26 && (word_length as u64) < (alphabet_len as u64) {
            Some(Config { word_length, alphabet_len })
        } else {
            None
        }
    }

    /// The mask holding every letter of the alphabet, as executable code.
    pub fn all_mask(&self) -> (r: Charmask)
        requires
            self.wf(),
        ensures
            r == self.spec_all_mask(),
    {
        let n: u32 = self.alphabet_len;
        let one_past: u32 = 1u32 << n;
        assert(n <= 26 ==> 1u32 << n >= 1 && ((1u32 << n) - 1) as u32 == crate::masks::lowmask(n))
            by (bit_vector);
        one_past - 1
    }
}

} // verus!
