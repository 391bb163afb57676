//! Encoding of textual words as per-position letter masks.
use vstd::prelude::*;

verus! {

use vstd::std_specs::iter::IteratorSpec;
use crate::Charmask;
use crate::Config;
use crate::masks::letter_bit;
use crate::masks::lowmask;
use crate::masks::pop;
use crate::masks::single_bit;
use crate::masks::submask;
use crate::masks::lemma_bit;
use crate::masks::lemma_two_bits;
use crate::masks::lemma_sub;
use crate::masks::lemma_or_rearrange;
use crate::masks::lemma_pop_or;
use crate::masks::lemma_pop_single;
use crate::masks::lemma_pop_zero;

/// A word: one single-letter mask per position, and the union of them.
/// Immutable once built.
pub struct Word {
    pub position_masks: Vec<Charmask>,
    pub full_mask: Charmask,
}

/// The mathematical value of a `Word`.
#[verifier::ext_equal]
pub struct WordView {
    pub bits: Seq<Charmask>,
    pub full: Charmask,
}

impl View for Word {
    type V = WordView;

    open spec fn view(&self) -> WordView {
        WordView { bits: self.position_masks@, full: self.full_mask }
    }
}

/// The union of a sequence of masks.
pub open spec fn or_seq(s: Seq<Charmask>) -> Charmask
    decreases s.len(),
{
    if s.len() == 0 {
        0u32
    } else {
        or_seq(s.drop_last()) | s.last()
    }
}

/// A word fit for simulation: one mask per position, each a non-empty set
/// of alphabet letters, and `full` their union.  Aggregated multi-guess
/// words satisfy this; encoded single words satisfy `word_single` too.
pub open spec fn word_wf(w: WordView, cfg: Config) -> bool {
    &&& w.bits.len() == cfg.word_length
    &&& w.full == or_seq(w.bits)
    &&& forall|i: int|
        0 <= i < w.bits.len() ==> #[trigger] w.bits[i] != 0 && submask(
            w.bits[i],
            cfg.spec_all_mask(),
        )
}

/// Every position holds exactly one letter, as an encoded word does.
pub open spec fn word_single(w: WordView) -> bool {
    forall|i: int| 0 <= i < w.bits.len() ==> single_bit(#[trigger] w.bits[i])
}

/// The mathematical values of a sequence of words.
pub open spec fn words_view(s: Seq<Word>) -> Seq<WordView> {
    s.map_values(|w: Word| w@)
}

/// Every word in the sequence is a well-formed encoded word.
pub open spec fn wf_words(s: Seq<WordView>, cfg: Config) -> bool {
    forall|i: int|
        0 <= i < s.len() ==> word_wf(#[trigger] s[i], cfg) && word_single(s[i])
}

/// Why a string cannot be encoded.
#[derive(Clone, Copy, PartialEq, Eq, Structural, Debug)]
pub enum WordError {
    /// The string is not exactly `word_length` symbols long.
    InvalidLength,
    /// A symbol lies outside the configured alphabet.
    InvalidSymbol,
}

/// The character stands for a letter of the configured alphabet.
pub open spec fn valid_char(cfg: Config, c: char) -> bool {
    65 <= (c as u32) && (c as u32) < 65 + cfg.alphabet_len
}

pub open spec fn valid_chars(cfg: Config, s: Seq<char>) -> bool {
    forall|i: int| 0 <= i < s.len() ==> valid_char(cfg, #[trigger] s[i])
}

/// The mask of the letter a character stands for.
pub open spec fn char_bit(c: char) -> Charmask {
    letter_bit(((c as u32) - 65) as u32)
}

/// The per-position masks a string encodes to.
pub open spec fn encode_bits(s: Seq<char>) -> Seq<Charmask> {
    Seq::new(s.len(), |i: int| char_bit(s[i]))
}

pub proof fn lemma_or_seq_push(s: Seq<Charmask>, x: Charmask)
    ensures
        or_seq(s.push(x)) == or_seq(s) | x,
{
    assert(s.push(x).drop_last() =~= s);
    assert(s.push(x).last() == x);
}

/// Each element of a sequence lies inside the union of the sequence.
pub proof fn lemma_or_seq_elem(s: Seq<Charmask>, i: int)
    requires
        0 <= i < s.len(),
    ensures
        submask(s[i], or_seq(s)),
    decreases s.len(),
{
    if i == s.len() - 1 {
        lemma_sub(or_seq(s.drop_last()), s.last(), 0);
        assert(submask(s.last(), or_seq(s.drop_last()) | s.last()));
    } else {
        lemma_or_seq_elem(s.drop_last(), i);
        lemma_sub(s[i], or_seq(s.drop_last()), or_seq(s.drop_last()) | s.last());
        lemma_sub(or_seq(s.drop_last()), s.last(), 0);
    }
}

/// A union lies inside any mask that holds every element.
pub proof fn lemma_or_seq_submask(s: Seq<Charmask>, m: Charmask)
    requires
        forall|i: int| 0 <= i < s.len() ==> submask(#[trigger] s[i], m),
    ensures
        submask(or_seq(s), m),
    decreases s.len(),
{
    if s.len() == 0 {
        assert(submask(0u32, m)) by (bit_vector);
    } else {
        lemma_or_seq_submask(s.drop_last(), m);
        lemma_sub(or_seq(s.drop_last()), s.last(), m);
    }
}

/// A word of single-letter positions holds at most `word_length` distinct
/// letters.
pub proof fn lemma_pop_full(w: WordView, cfg: Config)
    requires
        word_wf(w, cfg),
        word_single(w),
    ensures
        pop(w.full) <= cfg.word_length,
{
    lemma_pop_or_seq_single(w.bits);
}

proof fn lemma_pop_or_seq_single(s: Seq<Charmask>)
    requires
        forall|i: int| 0 <= i < s.len() ==> single_bit(#[trigger] s[i]),
    ensures
        pop(or_seq(s)) <= s.len(),
    decreases s.len(),
{
    if s.len() == 0 {
        lemma_pop_zero();
    } else {
        lemma_pop_or_seq_single(s.drop_last());
        lemma_pop_or(or_seq(s.drop_last()), s.last());
        let c = choose|c: u32| c < 32 && s.last() == letter_bit(c);
        lemma_pop_single(c);
    }
}

/// Encode one character of the alphabet as its letter mask.
pub fn char2bit(cfg: &Config, c: char) -> (r: Charmask)
    requires
        cfg.wf(),
        valid_char(*cfg, c),
    ensures
        r == char_bit(c),
{
    let u: u32 = c as u32;
    1u32 << (u - 65)
}

/// Collect the characters of a string slice.
fn chars_of(s: &str) -> (r: Vec<char>)
    ensures
        r@ == s@,
{
    let mut it = s.chars();
    let mut r: Vec<char> = Vec::new();
    loop
        invariant
            r@ + it.remaining() == s@,
        ensures
            r@ == s@,
        decreases s@.len() - r@.len(),
    {
        match it.next() {
            Some(c) => {
                r.push(c);
                proof {
                    assert(r@ + it.remaining() =~= s@);
                }
            },
            None => {
                proof {
                    assert(r@ + it.remaining() =~= r@);
                    assert(r@ =~= s@);
                }
                break ;
            },
        }
    }
    r
}

/// Encode a textual word: exactly `word_length` characters, each a letter
/// of the configured alphabet.  An out-of-alphabet symbol is reported
/// before a wrong length.
pub fn encode(cfg: &Config, s: &str) -> (r: Result<Word, WordError>)
    requires
        cfg.wf(),
    ensures
        r is Ok <==> s@.len() == cfg.word_length && valid_chars(*cfg, s@),
        r matches Ok(w) ==> w@.bits == encode_bits(s@) && word_wf(w@, *cfg) && word_single(w@),
        r == Err::<Word, WordError>(WordError::InvalidSymbol) <==> !valid_chars(*cfg, s@),
        r == Err::<Word, WordError>(WordError::InvalidLength) <==> valid_chars(*cfg, s@)
            && s@.len() != cfg.word_length,
{
    let cs = chars_of(s);
    let n = cs.len();
    let mut i: usize = 0;
    while i < n
        invariant
            cfg.wf(),
            cs@ == s@,
            n == s@.len(),
            0 <= i <= n,
            forall|j: int| 0 <= j < i ==> valid_char(*cfg, #[trigger] s@[j]),
        decreases n - i,
    {
        let u: u32 = cs[i] as u32;
        if u < 65 || u >= 65 + cfg.alphabet_len {
            assert(!valid_char(*cfg, s@[i as int]));
            return Err(WordError::InvalidSymbol);
        }
        assert(valid_char(*cfg, s@[i as int]));
        i = i + 1;
    }
    if n != cfg.word_length {
        return Err(WordError::InvalidLength);
    }
    let mut position_masks: Vec<Charmask> = Vec::new();
    let mut full_mask: Charmask = 0;
    let mut i: usize = 0;
    while i < n
        invariant
            cfg.wf(),
            cs@ == s@,
            n == s@.len(),
            n == cfg.word_length,
            forall|j: int| 0 <= j < n ==> valid_char(*cfg, #[trigger] s@[j]),
            0 <= i <= n,
            position_masks@ =~= encode_bits(s@).take(i as int),
            full_mask == or_seq(position_masks@),
        decreases n - i,
    {
        let u: u32 = cs[i] as u32;
        let cb: Charmask = 1u32 << (u - 65);
        proof {
            lemma_or_seq_push(position_masks@, cb);
            assert(encode_bits(s@).take(i + 1) =~= encode_bits(s@).take(i as int).push(
                char_bit(s@[i as int]),
            ));
        }
        position_masks.push(cb);
        full_mask = full_mask | cb;
        i = i + 1;
    }
    proof {
        assert(position_masks@ =~= encode_bits(s@));
        assert forall|j: int| 0 <= j < n implies #[trigger] encode_bits(s@)[j] != 0 && submask(
            encode_bits(s@)[j],
            cfg.spec_all_mask(),
        ) && single_bit(encode_bits(s@)[j]) by {
            let c = ((s@[j] as u32) - 65) as u32;
            lemma_bit(0, c);
            lemma_two_bits(c, cfg.alphabet_len);
            assert(letter_bit(c) & lowmask(cfg.alphabet_len) == letter_bit(c));
        }
    }
    Ok(Word { position_masks, full_mask })
}

/// The alphabet index of the single letter a mask holds.
fn letter_index(cfg: &Config, m: Charmask) -> (r: u32)
    requires
        cfg.wf(),
        single_bit(m),
        submask(m, cfg.spec_all_mask()),
    ensures
        r < cfg.alphabet_len,
        m == letter_bit(r),
{
    let ghost cw: u32 = choose|c: u32| c < 32 && m == letter_bit(c);
    proof {
        lemma_bit(m, cw);
        lemma_two_bits(cw, cfg.alphabet_len);
        assert(cw < cfg.alphabet_len);
    }
    let mut c: u32 = 0;
    while m != (1u32 << c)
        invariant
            c <= cw,
            cw < cfg.alphabet_len,
            cfg.alphabet_len <= 26,
            m == letter_bit(cw),
        decreases cw - c,
    {
        c = c + 1;
    }
    c
}

/// Decode a word back into its characters.
pub fn decode(cfg: &Config, w: &Word) -> (r: Vec<char>)
    requires
        cfg.wf(),
        word_wf(w@, *cfg),
        word_single(w@),
    ensures
        r@.len() == cfg.word_length,
        forall|i: int|
            0 <= i < r@.len() ==> valid_char(*cfg, #[trigger] r@[i]) && char_bit(r@[i])
                == w@.bits[i],
{
    let n = w.position_masks.len();
    let mut r: Vec<char> = Vec::new();
    let mut i: usize = 0;
    while i < n
        invariant
            cfg.wf(),
            word_wf(w@, *cfg),
            word_single(w@),
            n == w@.bits.len(),
            0 <= i <= n,
            r@.len() == i,
            forall|j: int|
                0 <= j < i ==> valid_char(*cfg, #[trigger] r@[j]) && char_bit(r@[j])
                    == w@.bits[j],
        decreases n - i,
    {
        let c = letter_index(cfg, w.position_masks[i]);
        let ch: char = ((65 + c) as u8) as char;
        proof {
            assert(ch as u32 == 65 + c);
            assert(char_bit(ch) == letter_bit(c));
        }
        r.push(ch);
        i = i + 1;
    }
    r
}

/// Law: decoding gives back exactly what was encoded.  The hypotheses are
/// the postconditions of `encode` (for the string `s`) and of `decode`
/// (for the characters `d` of the encoded word).
pub proof fn lemma_decode_encode(cfg: Config, s: Seq<char>, d: Seq<char>)
    requires
        cfg.wf(),
        s.len() == cfg.word_length,
        valid_chars(cfg, s),
        d.len() == cfg.word_length,
        forall|i: int|
            0 <= i < d.len() ==> valid_char(cfg, #[trigger] d[i]) && char_bit(d[i])
                == encode_bits(s)[i],
    ensures
        d == s,
{
    assert forall|i: int| 0 <= i < d.len() implies d[i] == s[i] by {
        let cd = ((d[i] as u32) - 65) as u32;
        let cs = ((s[i] as u32) - 65) as u32;
        lemma_two_bits(cd, cs);
        assert(d[i] as u32 == s[i] as u32);
        vstd::utf8::char_u32_cast(d[i], d[i] as u32);
        vstd::utf8::char_u32_cast(s[i], s[i] as u32);
    }
    assert(d =~= s);
}

/// Law: a well-formed word's `full_mask` is the union of its
/// `position_masks`; `encode` and `agg_guesses` only produce such words.
pub proof fn lemma_full_mask_is_union(w: WordView, cfg: Config)
    requires
        word_wf(w, cfg),
    ensures
        w.full == or_seq(w.bits),
        forall|i: int| 0 <= i < w.bits.len() ==> submask(#[trigger] w.bits[i], w.full),
{
    assert forall|i: int| 0 <= i < w.bits.len() implies submask(#[trigger] w.bits[i], w.full) by {
        lemma_or_seq_elem(w.bits, i);
    }
}

/// A mask misses every position of a word exactly when it misses the
/// word's whole letter set.
pub proof fn lemma_or_seq_disjoint(s: Seq<Charmask>, m: Charmask)
    ensures
        (or_seq(s) & m == 0) <==> (forall|i: int| 0 <= i < s.len() ==> #[trigger] (s[i] & m)
            == 0),
    decreases s.len(),
{
    if s.len() == 0 {
        lemma_sub(0, m, 0);
        crate::masks::lemma_contains_or(m, 0, 0);
    } else {
        lemma_or_seq_disjoint(s.drop_last(), m);
        crate::masks::lemma_contains_or(m, or_seq(s.drop_last()), s.last());
        if or_seq(s) & m == 0 {
            assert forall|i: int| 0 <= i < s.len() implies #[trigger] (s[i] & m) == 0 by {
                if i < s.len() - 1 {
                    assert(s.drop_last()[i] == s[i]);
                }
            }
        } else {
            if forall|i: int| 0 <= i < s.len() ==> #[trigger] (s[i] & m) == 0 {
                assert forall|i: int|
                    0 <= i < s.drop_last().len() implies #[trigger] (s.drop_last()[i] & m)
                    == 0 by {
                    assert(s.drop_last()[i] == s[i]);
                }
                assert(false);
            }
        }
    }
}

/// A well-formed word's letters all lie inside the alphabet.
pub proof fn lemma_word_full_sub(w: WordView, cfg: Config)
    requires
        word_wf(w, cfg),
    ensures
        submask(w.full, cfg.spec_all_mask()),
{
    lemma_or_seq_submask(w.bits, cfg.spec_all_mask());
}

/// Two words combined into one aggregated probe: the union position by
/// position.
pub open spec fn or_word(a: WordView, b: WordView) -> WordView {
    WordView {
        bits: Seq::new(a.bits.len(), |i: int| a.bits[i] | b.bits[i]),
        full: a.full | b.full,
    }
}

proof fn lemma_or_seq_pointwise(a: Seq<Charmask>, b: Seq<Charmask>)
    requires
        a.len() == b.len(),
    ensures
        or_seq(Seq::new(a.len(), |i: int| a[i] | b[i])) == or_seq(a) | or_seq(b),
    decreases a.len(),
{
    let s = Seq::new(a.len(), |i: int| a[i] | b[i]);
    if a.len() == 0 {
        assert(0u32 | 0u32 == 0u32) by (bit_vector);
    } else {
        lemma_or_seq_pointwise(a.drop_last(), b.drop_last());
        assert(s.drop_last() =~= Seq::new(a.drop_last().len(), |i: int| a.drop_last()[i]
            | b.drop_last()[i]));
        lemma_or_rearrange(or_seq(a.drop_last()), or_seq(b.drop_last()), a.last(), b.last());
    }
}

/// Aggregation preserves well-formedness.
pub proof fn lemma_or_word_wf(a: WordView, b: WordView, cfg: Config)
    requires
        word_wf(a, cfg),
        word_wf(b, cfg),
    ensures
        word_wf(or_word(a, b), cfg),
{
    lemma_or_seq_pointwise(a.bits, b.bits);
    assert forall|i: int| 0 <= i < or_word(a, b).bits.len() implies #[trigger] or_word(
        a,
        b,
    ).bits[i] != 0 && submask(or_word(a, b).bits[i], cfg.spec_all_mask()) by {
        lemma_sub(a.bits[i], b.bits[i], cfg.spec_all_mask());
    }
}

/// Combine two guesses into one aggregated probe, as if both were played
/// at once.
pub fn agg_guesses(w1: &Word, w2: &Word) -> (r: Word)
    requires
        w1@.bits.len() == w2@.bits.len(),
    ensures
        r@ == or_word(w1@, w2@),
{
    let n = w1.position_masks.len();
    let mut bits: Vec<Charmask> = Vec::new();
    let mut i: usize = 0;
    while i < n
        invariant
            n == w1@.bits.len(),
            n == w2@.bits.len(),
            0 <= i <= n,
            bits@ =~= or_word(w1@, w2@).bits.take(i as int),
        decreases n - i,
    {
        bits.push(w1.position_masks[i] | w2.position_masks[i]);
        i = i + 1;
    }
    let r = Word { position_masks: bits, full_mask: w1.full_mask | w2.full_mask };
    proof {
        assert(r@.bits =~= or_word(w1@, w2@).bits);
        assert(r@ =~= or_word(w1@, w2@));
    }
    r
}

/// Whether two mask vectors hold the same masks.
pub fn masks_equal(a: &Vec<Charmask>, b: &Vec<Charmask>) -> (r: bool)
    ensures
        r == (a@ == b@),
{
    if a.len() != b.len() {
        return false;
    }
    let n = a.len();
    let mut j: usize = 0;
    while j < n
        invariant
            n == a@.len(),
            n == b@.len(),
            0 <= j <= n,
            forall|k: int| 0 <= k < j ==> a@[k] == b@[k],
        decreases n - j,
    {
        if a[j] != b[j] {
            return false;
        }
        j = j + 1;
    }
    proof {
        assert(a@ =~= b@);
    }
    true
}

/// A character that stands for an alphabet letter, upper or lower case.
pub open spec fn letter_char(cfg: Config, c: char) -> bool {
    valid_char(cfg, c) || (97 <= (c as u32) && (c as u32) < 97 + cfg.alphabet_len)
}

/// The alphabet index a letter character stands for, case folded.
pub open spec fn letter_index_of(c: char) -> u32 {
    if (c as u32) >= 97 {
        (((c as u32) - 97) as u32)
    } else {
        (((c as u32) - 65) as u32)
    }
}

/// The masks a line's letters stand for, case folded.
pub open spec fn line_bits(s: Seq<char>) -> Seq<Charmask> {
    Seq::new(s.len(), |i: int| letter_bit(letter_index_of(s[i])))
}

/// Parse one dictionary line: accepted exactly when it is
/// `word_length` letters of the alphabet, in either case; the word is
/// encoded with case folded away.
pub fn parse_line(cfg: &Config, line: &str) -> (r: Option<Word>)
    requires
        cfg.wf(),
    ensures
        r is Some <==> line@.len() == cfg.word_length && (forall|i: int|
            0 <= i < line@.len() ==> letter_char(*cfg, #[trigger] line@[i])),
        r matches Some(w) ==> w@.bits == line_bits(line@) && word_wf(w@, *cfg) && word_single(
            w@,
        ),
{
    let cs = chars_of(line);
    let n = cs.len();
    let mut i: usize = 0;
    while i < n
        invariant
            cfg.wf(),
            cs@ == line@,
            n == line@.len(),
            0 <= i <= n,
            forall|j: int| 0 <= j < i ==> letter_char(*cfg, #[trigger] line@[j]),
        decreases n - i,
    {
        let u: u32 = cs[i] as u32;
        let upper = 65 <= u && u < 65 + cfg.alphabet_len;
        let lower = 97 <= u && u < 97 + cfg.alphabet_len;
        if !upper && !lower {
            assert(!letter_char(*cfg, line@[i as int]));
            return None;
        }
        assert(letter_char(*cfg, line@[i as int]));
        i = i + 1;
    }
    if n != cfg.word_length {
        return None;
    }
    let mut position_masks: Vec<Charmask> = Vec::new();
    let mut full_mask: Charmask = 0;
    let mut i: usize = 0;
    while i < n
        invariant
            cfg.wf(),
            cs@ == line@,
            n == line@.len(),
            n == cfg.word_length,
            forall|j: int| 0 <= j < n ==> letter_char(*cfg, #[trigger] line@[j]),
            0 <= i <= n,
            position_masks@ =~= line_bits(line@).take(i as int),
            full_mask == or_seq(position_masks@),
        decreases n - i,
    {
        let u: u32 = cs[i] as u32;
        let idx: u32 = if u >= 97 {
            u - 97
        } else {
            u - 65
        };
        let cb: Charmask = 1u32 << idx;
        proof {
            lemma_or_seq_push(position_masks@, cb);
            assert(line_bits(line@).take(i + 1) =~= line_bits(line@).take(i as int).push(
                letter_bit(letter_index_of(line@[i as int])),
            ));
        }
        position_masks.push(cb);
        full_mask = full_mask | cb;
        i = i + 1;
    }
    proof {
        assert(position_masks@ =~= line_bits(line@));
        assert forall|j: int| 0 <= j < n implies #[trigger] line_bits(line@)[j] != 0 && submask(
            line_bits(line@)[j],
            cfg.spec_all_mask(),
        ) && single_bit(line_bits(line@)[j]) by {
            let c = letter_index_of(line@[j]);
            lemma_bit(0, c);
            lemma_two_bits(c, cfg.alphabet_len);
            assert(letter_bit(c) & lowmask(cfg.alphabet_len) == letter_bit(c));
        }
    }
    Some(Word { position_masks, full_mask })
}

/// Find the index of the first word in the list whose masks encode the
/// given string, or nothing when the string is not a valid word or no
/// listed word matches it.
pub fn find_word_id_from_str(cfg: &Config, s: &str, words: &Vec<Word>) -> (r: Option<usize>)
    requires
        cfg.wf(),
    ensures
        r matches Some(i) ==> i < words@.len() && s@.len() == cfg.word_length && valid_chars(
            *cfg,
            s@,
        ) && words_view(words@)[i as int].bits == encode_bits(s@) && (forall|j: int|
            0 <= j < i ==> words_view(words@)[j].bits != encode_bits(s@)),
        r is None ==> !(s@.len() == cfg.word_length && valid_chars(*cfg, s@)) || (forall|j: int|
            0 <= j < words@.len() ==> words_view(words@)[j].bits != encode_bits(s@)),
{
    let w = match encode(cfg, s) {
        Ok(w) => w,
        Err(_) => {
            return None;
        },
    };
    let n = words.len();
    let mut i: usize = 0;
    while i < n
        invariant
            n == words@.len(),
            w@.bits == encode_bits(s@),
            s@.len() == cfg.word_length && valid_chars(*cfg, s@),
            0 <= i <= n,
            forall|j: int| 0 <= j < i ==> words_view(words@)[j].bits != encode_bits(s@),
        decreases n - i,
    {
        if masks_equal(&words[i].position_masks, &w.position_masks) {
            proof {
                assert(words_view(words@)[i as int].bits == words@[i as int].position_masks@);
            }
            return Some(i);
        }
        proof {
            assert(words_view(words@)[i as int].bits == words@[i as int].position_masks@);
        }
        i = i + 1;
    }
    None
}

impl Clone for Word {
    /// Words are immutable values; a clone has the same masks.
    fn clone(&self) -> (res: Word)
        ensures
            res@ == self@,
    {
        let n = self.position_masks.len();
        let mut bits: Vec<Charmask> = Vec::new();
        let mut i: usize = 0;
        while i < n
            invariant
                n == self.position_masks@.len(),
                0 <= i <= n,
                bits@ =~= self.position_masks@.take(i as int),
            decreases n - i,
        {
            bits.push(self.position_masks[i]);
            i = i + 1;
        }
        let res = Word { position_masks: bits, full_mask: self.full_mask };
        proof {
            assert(res@.bits =~= self@.bits);
            assert(res@ =~= self@);
        }
        res
    }
}

} // verus!
