//! Spec-level vocabulary and lemmas for charmasks: single-letter bits,
//! submask ordering, and the number of letters a mask holds.
use vstd::prelude::*;

verus! {

use crate::Charmask;

/// The mask holding exactly the `c`-th letter.
pub open spec fn letter_bit(c: u32) -> Charmask {
    1u32 << c
}

/// `a` holds no letter outside `b`.
pub open spec fn submask(a: Charmask, b: Charmask) -> bool {
    a & b == a
}

/// The mask holding the first `n` letters of the alphabet.
pub open spec fn lowmask(n: u32) -> Charmask {
    (((1u64 << n) - 1) as u32)
}

/// `m` holds exactly one letter.
pub open spec fn single_bit(m: Charmask) -> bool {
    exists|c: u32| c < 32 && m == #[trigger] letter_bit(c)
}

/// How many of the letters `0 .. i` the mask `m` holds.
pub open spec fn pop_below(m: Charmask, i: u32) -> nat
    decreases i,
{
    if i == 0 {
        0
    } else {
        pop_below(m, (i - 1) as u32) + if m & letter_bit((i - 1) as u32) != 0 {
            1nat
        } else {
            0nat
        }
    }
}

/// How many letters the mask `m` holds.
pub open spec fn pop(m: Charmask) -> nat {
    pop_below(m, 32)
}

/// Facts about one mask and one letter.
pub proof fn lemma_bit(m: Charmask, c: u32)
    by (bit_vector)
    ensures
        c < 32 ==> letter_bit(c) != 0,
        c < 32 && m & letter_bit(c) == 0 ==> (m | letter_bit(c)) & !letter_bit(c) == m,
        (m | letter_bit(c)) & letter_bit(c) == letter_bit(c),
        m & letter_bit(c) == 0 || m & letter_bit(c) == letter_bit(c),
{
}

/// Facts relating two letters.
pub proof fn lemma_two_bits(c: u32, d: u32)
    by (bit_vector)
    ensures
        c != d ==> letter_bit(c) & letter_bit(d) == 0,
        c < 32 && d < 32 && letter_bit(c) == letter_bit(d) ==> c == d,
        c < d ==> letter_bit(c) & !lowmask(d) == 0,
        c < 32 && d <= c ==> letter_bit(c) & lowmask(d) == 0,
        c < d && d <= 32 ==> letter_bit(c) & lowmask(d) == letter_bit(c),
{
}

/// Submask ordering: reflexivity, transitivity, and how it interacts
/// with union and intersection.
pub proof fn lemma_sub(a: Charmask, b: Charmask, c: Charmask)
    by (bit_vector)
    ensures
        submask(a & b, a) && submask(a & b, b),
        submask(a, a | b) && submask(b, a | b),
        submask(a, b) && submask(b, c) ==> submask(a, c),
        submask(a, c) && submask(b, c) ==> submask(a | b, c),
        submask(a, b) ==> a | b == b,
        a != 0 ==> (a | b) != 0,
        a & b == b & a,
        a & a == a,
        submask(a, b) && c & b == 0 ==> c & a == 0,
{
}

/// A mask holds both `a` and `b` exactly when it holds their union;
/// nothing holds a letter of the empty mask.
pub proof fn lemma_contains_or(f: Charmask, a: Charmask, b: Charmask)
    by (bit_vector)
    ensures
        (f & a == a && f & b == b) <==> f & (a | b) == (a | b),
        f & 0u32 == 0u32,
        (a | b) & f == 0 <==> (a & f == 0 && b & f == 0),
{
}

/// Facts about banning: a letter is never banned by its own exclusion
/// mask, and a letter allowed under `a & !y` within `a` lies in `y`.
pub proof fn lemma_ban_facts(x: Charmask, y: Charmask, a: Charmask)
    by (bit_vector)
    ensures
        x & !x == 0,
        0u32 | x == x,
        x | 0u32 == x,
        y & (a & !y) == 0,
        x & y == 0 ==> x & !y == x,
        (x & a == x && x & (a & !y) == 0) ==> x & y == x,
{
}

/// How the letters of `km` beyond `key` behave when the letter `c` is
/// moved from the one side to the other.
pub proof fn lemma_extras(km: Charmask, key: Charmask, c: u32)
    by (bit_vector)
    ensures
        submask(key, km) && km != key ==> (km & !key) != 0,
        (km & !(key | letter_bit(c))) == (km & !key) & !letter_bit(c),
        (km & !key) & letter_bit(c) == letter_bit(c) && c < 32 ==> ((km & !key) & !letter_bit(c))
            | letter_bit(c) == (km & !key) && ((km & !key) & !letter_bit(c)) & letter_bit(c) == 0,
        submask(key, km) && (km & !key) & letter_bit(c) == letter_bit(c) ==> submask(
            key | letter_bit(c),
            km,
        ),
        c < 32 && (km & !key) & lowmask(c) == 0 && (km & !key) & lowmask((c + 1) as u32) != 0
            ==> (km & !key) & letter_bit(c) == letter_bit(c),
        c < 32 && (km & !key) & lowmask(c) == 0 ==> ((km & !key) & !letter_bit(c)) & lowmask(
            (c + 1) as u32,
        ) == 0,
        (km & !key) & km == km & !key,
        km & !0u32 == km,
        submask(0u32, km),
        submask(km, lowmask(c)) ==> (km & !key) & lowmask(c) == km & !key,
{
}

/// Keys drawn from the first `n` letters: a fresh letter `c >= n` is not
/// yet in the key, the extended key stays below `c + 1`, and the key is a
/// number below `2^n`.
pub proof fn lemma_step(key: Charmask, n: u32, c: u32)
    by (bit_vector)
    ensures
        n <= c && c < 32 && submask(key, lowmask(n)) ==> key & letter_bit(c) == 0,
        n <= c && c < 32 && submask(key, lowmask(n)) ==> submask(
            key | letter_bit(c),
            lowmask((c + 1) as u32),
        ),
        n <= 26 && submask(key, lowmask(n)) ==> (key as u64) < (1u64 << n),
        submask(key, lowmask(n)) && n <= c && c <= 32 ==> submask(key, lowmask(c)),
        n <= 26 ==> (lowmask(n) as u64) < (1u64 << n),
        1 <= n && n <= 26 ==> 1u64 << n >= 2,
        1 <= n && n <= 26 ==> lowmask(n) != 0,
{
}

/// Union is commutative and associative enough to combine words pointwise.
pub proof fn lemma_or_rearrange(a: Charmask, b: Charmask, c: Charmask, d: Charmask)
    by (bit_vector)
    ensures
        (a | b) | (c | d) == (a | c) | (b | d),
        a | b == b | a,
{
}

proof fn lemma_pop_below_submask(a: Charmask, b: Charmask, i: u32)
    requires
        submask(a, b),
    ensures
        pop_below(a, i) <= pop_below(b, i),
    decreases i,
{
    if i > 0 {
        let j = (i - 1) as u32;
        lemma_pop_below_submask(a, b, j);
        assert(a & b == a && a & (1u32 << j) != 0 ==> b & (1u32 << j) != 0) by (bit_vector);
    }
}

/// A mask inside another holds no more letters.
pub proof fn lemma_pop_submask(a: Charmask, b: Charmask)
    requires
        submask(a, b),
    ensures
        pop(a) <= pop(b),
{
    lemma_pop_below_submask(a, b, 32);
}

proof fn lemma_pop_below_or(a: Charmask, b: Charmask, i: u32)
    ensures
        pop_below(a | b, i) <= pop_below(a, i) + pop_below(b, i),
    decreases i,
{
    if i > 0 {
        let j = (i - 1) as u32;
        lemma_pop_below_or(a, b, j);
        assert((a | b) & (1u32 << j) != 0 ==> a & (1u32 << j) != 0 || b & (1u32 << j) != 0)
            by (bit_vector);
    }
}

/// A union holds at most the letters of both sides together.
pub proof fn lemma_pop_or(a: Charmask, b: Charmask)
    ensures
        pop(a | b) <= pop(a) + pop(b),
{
    lemma_pop_below_or(a, b, 32);
}

proof fn lemma_pop_below_single(c: u32, i: u32)
    requires
        c < 32,
    ensures
        pop_below(letter_bit(c), i) == if c < i {
            1nat
        } else {
            0nat
        },
    decreases i,
{
    if i > 0 {
        let j = (i - 1) as u32;
        lemma_pop_below_single(c, j);
        assert(c < 32 && c != j ==> (1u32 << c) & (1u32 << j) == 0) by (bit_vector);
        assert(c < 32 ==> (1u32 << c) & (1u32 << c) != 0) by (bit_vector);
    }
}

/// A single letter counts as one.
pub proof fn lemma_pop_single(c: u32)
    requires
        c < 32,
    ensures
        pop(letter_bit(c)) == 1,
{
    lemma_pop_below_single(c, 32);
}

proof fn lemma_pop_below_add_bit(k: Charmask, c: u32, i: u32)
    requires
        c < 32,
        k & letter_bit(c) == 0,
    ensures
        pop_below(k | letter_bit(c), i) == pop_below(k, i) + if c < i {
            1nat
        } else {
            0nat
        },
    decreases i,
{
    if i > 0 {
        let j = (i - 1) as u32;
        lemma_pop_below_add_bit(k, c, j);
        assert(c != j ==> (k | (1u32 << c)) & (1u32 << j) == k & (1u32 << j)) by (bit_vector);
        assert(c < 32 && k & (1u32 << c) == 0 ==> (k | (1u32 << c)) & (1u32 << c) != 0 && k & (
        1u32 << c) == 0) by (bit_vector);
    }
}

/// Adding a fresh letter raises the count by one.
pub proof fn lemma_pop_add_bit(k: Charmask, c: u32)
    requires
        c < 32,
        k & letter_bit(c) == 0,
    ensures
        pop(k | letter_bit(c)) == pop(k) + 1,
{
    lemma_pop_below_add_bit(k, c, 32);
}

proof fn lemma_pop_below_nonzero(m: Charmask, i: u32)
    requires
        i <= 32,
        m & lowmask(i) != 0,
    ensures
        pop_below(m, i) >= 1,
    decreases i,
{
    assert(!(i == 0) || !(m & lowmask(0) != 0)) by (bit_vector);
    let j = (i - 1) as u32;
    assert(i <= 32 && i > 0 && m & lowmask(i) != 0 && m & (1u32 << ((i - 1) as u32)) == 0 ==> m
        & lowmask((i - 1) as u32) != 0) by (bit_vector);
    if m & letter_bit(j) == 0 {
        lemma_pop_below_nonzero(m, j);
    }
}

/// A mask that is not empty holds at least one letter.
pub proof fn lemma_pop_nonzero(m: Charmask)
    requires
        m != 0,
    ensures
        pop(m) >= 1,
{
    assert(m != 0 ==> m & lowmask(32) != 0) by (bit_vector);
    lemma_pop_below_nonzero(m, 32);
}

/// The mask of the first `n` letters holds exactly `n` of them.
pub proof fn lemma_pop_lowmask(n: u32)
    requires
        n <= 32,
    ensures
        pop(lowmask(n)) == n,
    decreases n,
{
    if n == 0 {
        assert(lowmask(0) == 0) by (bit_vector);
        lemma_pop_below_zero_mask(32);
    } else {
        let j = (n - 1) as u32;
        lemma_pop_lowmask(j);
        assert(1 <= n && n <= 32 ==> lowmask(n) == lowmask((n - 1) as u32) | (1u32 << ((n - 1)
            as u32))
            && lowmask((n - 1) as u32) & (1u32 << ((n - 1) as u32)) == 0) by (bit_vector);
        lemma_pop_add_bit(lowmask(j), j);
    }
}

proof fn lemma_pop_below_zero_mask(i: u32)
    ensures
        pop_below(0, i) == 0,
    decreases i,
{
    if i > 0 {
        lemma_pop_below_zero_mask((i - 1) as u32);
        assert(0u32 & (1u32 << ((i - 1) as u32)) == 0) by (bit_vector);
    }
}

/// The empty mask holds no letters.
pub proof fn lemma_pop_zero()
    ensures
        pop(0) == 0,
{
    lemma_pop_below_zero_mask(32);
}

} // verus!
