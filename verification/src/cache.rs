//! The word cache: a mapping from every realizable "required letter set"
//! to the solutions that contain all letters of that set, plus two
//! reserved entries for the whole guessable list and the solution pool.
use vstd::prelude::*;

verus! {

use crate::Charmask;
use crate::Config;
use crate::masks::letter_bit;
use crate::masks::lowmask;
use crate::masks::pop;
use crate::masks::submask;
use crate::masks::lemma_sub;
use crate::masks::lemma_two_bits;
use crate::masks::lemma_contains_or;
use crate::masks::lemma_extras;
use crate::masks::lemma_step;
use crate::masks::lemma_pop_submask;
use crate::masks::lemma_pop_nonzero;
use crate::masks::lemma_pop_add_bit;
use crate::masks::lemma_pop_lowmask;
use crate::thin_array::ThinArray;
use crate::word::Word;
use crate::word::WordView;
use crate::word::words_view;
use crate::word::wf_words;
use crate::word::word_wf;
use crate::word::word_single;
use crate::word::lemma_pop_full;

/// The word holds every letter of `k`.
pub open spec fn contains_all(w: WordView, k: Charmask) -> bool {
    w.full & k == k
}

/// The words of `s` that hold every letter of `k`, in order.
pub open spec fn filter_key(s: Seq<WordView>, k: Charmask) -> Seq<WordView> {
    s.filter(|w: WordView| contains_all(w, k))
}

pub proof fn lemma_filter_key_push(s: Seq<WordView>, k: Charmask, x: WordView)
    ensures
        filter_key(s.push(x), k) == if contains_all(x, k) {
            filter_key(s, k).push(x)
        } else {
            filter_key(s, k)
        },
{
    reveal(Seq::filter);
    assert(s.push(x).drop_last() =~= s);
    assert(s.push(x).last() == x);
}

/// Filtering by one key and then another keeps exactly the words holding
/// the union of the keys.
pub proof fn lemma_filter_key_compose(s: Seq<WordView>, a: Charmask, b: Charmask)
    ensures
        filter_key(filter_key(s, a), b) == filter_key(s, a | b),
    decreases s.len(),
{
    if s.len() == 0 {
        reveal(Seq::filter);
    } else {
        let t = s.drop_last();
        let x = s.last();
        lemma_filter_key_compose(t, a, b);
        assert(s =~= t.push(x));
        lemma_filter_key_push(t, a, x);
        lemma_filter_key_push(t, a | b, x);
        lemma_contains_or(x.full, a, b);
        if contains_all(x, a) {
            lemma_filter_key_push(filter_key(t, a), b, x);
        }
    }
}

/// Filtering by the empty key keeps every word.
pub proof fn lemma_filter_key_zero(s: Seq<WordView>)
    ensures
        filter_key(s, 0) == s,
    decreases s.len(),
{
    if s.len() == 0 {
        reveal(Seq::filter);
        assert(filter_key(s, 0) =~= s);
    } else {
        let t = s.drop_last();
        let x = s.last();
        lemma_filter_key_zero(t);
        assert(s =~= t.push(x));
        lemma_filter_key_push(t, 0, x);
        lemma_contains_or(x.full, 0, 0);
        assert(filter_key(s, 0) =~= s);
    }
}

/// A smaller key keeps at least the words a larger one keeps.
pub proof fn lemma_filter_key_mono(s: Seq<WordView>, k1: Charmask, k2: Charmask)
    requires
        submask(k1, k2),
    ensures
        filter_key(s, k2).len() > 0 ==> filter_key(s, k1).len() > 0,
    decreases s.len(),
{
    if s.len() > 0 {
        let t = s.drop_last();
        let x = s.last();
        lemma_filter_key_mono(t, k1, k2);
        assert(s =~= t.push(x));
        lemma_filter_key_push(t, k1, x);
        lemma_filter_key_push(t, k2, x);
        if contains_all(x, k2) {
            lemma_sub(x.full, k2, 0);
            lemma_sub(k1, k2, x.full);
            lemma_sub(x.full, k1, 0);
        }
    }
}

/// Every word a filter keeps appears in the sequence it was taken from.
pub proof fn lemma_filter_key_sub(s: Seq<WordView>, k: Charmask)
    ensures
        forall|i: int|
            0 <= i < filter_key(s, k).len() ==> contains_all(#[trigger] filter_key(s, k)[i], k)
                && exists|j: int| 0 <= j < s.len() && s[j] == filter_key(s, k)[i],
    decreases s.len(),
{
    if s.len() > 0 {
        let t = s.drop_last();
        let x = s.last();
        lemma_filter_key_sub(t, k);
        assert(s =~= t.push(x));
        lemma_filter_key_push(t, k, x);
        assert forall|i: int| 0 <= i < filter_key(s, k).len() implies contains_all(
            #[trigger] filter_key(s, k)[i],
            k,
        ) && exists|j: int| 0 <= j < s.len() && s[j] == filter_key(s, k)[i] by {
            if contains_all(x, k) && i == filter_key(s, k).len() - 1 {
                assert(s[s.len() - 1] == filter_key(s, k)[i]);
            } else {
                let j = choose|j: int| 0 <= j < t.len() && t[j] == filter_key(t, k)[i];
                assert(s[j] == filter_key(s, k)[i]);
            }
        }
    }
}

/// A pool with a word holding every letter of `k` filters to something.
pub proof fn lemma_filter_key_mem(s: Seq<WordView>, k: Charmask, i: int)
    requires
        0 <= i < s.len(),
        contains_all(s[i], k),
    ensures
        filter_key(s, k).len() > 0,
    decreases s.len(),
{
    let t = s.drop_last();
    assert(s =~= t.push(s.last()));
    lemma_filter_key_push(t, k, s.last());
    if i < s.len() - 1 {
        assert(t[i] == s[i]);
        lemma_filter_key_mem(t, k, i);
    }
}

/// Two tests that agree on every element of a sequence filter it to the
/// same thing.
pub proof fn lemma_filter_agree<A>(s: Seq<A>, p: spec_fn(A) -> bool, q: spec_fn(A) -> bool)
    requires
        forall|i: int| 0 <= i < s.len() ==> (p(#[trigger] s[i]) <==> q(s[i])),
    ensures
        s.filter(p) == s.filter(q),
    decreases s.len(),
{
    reveal(Seq::filter);
    if s.len() > 0 {
        assert forall|i: int| 0 <= i < s.drop_last().len() implies (p(
            #[trigger] s.drop_last()[i],
        ) <==> q(s.drop_last()[i])) by {
            assert(s.drop_last()[i] == s[i]);
        }
        lemma_filter_agree(s.drop_last(), p, q);
    }
}

/// The words a filter keeps are well formed if the pool is.
pub proof fn lemma_filter_key_wf(s: Seq<WordView>, k: Charmask, cfg: Config)
    requires
        wf_words(s, cfg),
    ensures
        wf_words(filter_key(s, k), cfg),
{
    lemma_filter_key_sub(s, k);
    assert forall|i: int| 0 <= i < filter_key(s, k).len() implies word_wf(
        #[trigger] filter_key(s, k)[i],
        cfg,
    ) && word_single(filter_key(s, k)[i]) by {
        let j = choose|j: int| 0 <= j < s.len() && s[j] == filter_key(s, k)[i];
        assert(word_wf(s[j], cfg));
    }
}

/// The constraint cache.  `table` maps a charmask key to the list of
/// solutions containing every letter of the key; the key `0` holds the
/// whole solution pool and the whole-alphabet key holds the full
/// guessable word list.
pub struct WordCache {
    pub table: ThinArray<Vec<Word>>,
    pub config: Config,
}

impl WordCache {
    /// The mapping from keys to word lists, as mathematical values.
    pub open spec fn model(self) -> Map<Charmask, Seq<WordView>> {
        Map::new(
            |k: Charmask| self.table@.contains_key(k as int),
            |k: Charmask| words_view(self.table@[k as int]@),
        )
    }

    /// The reserved key that holds the whole guessable word list.
    pub open spec fn all_key(self) -> Charmask {
        self.config.spec_all_mask()
    }

    /// The solution pool: the bucket of the reserved key `0`.
    pub open spec fn solutions(self) -> Seq<WordView> {
        self.model()[0]
    }

    /// The full guessable word list.
    pub open spec fn all_words(self) -> Seq<WordView> {
        self.model()[self.all_key()]
    }

    /// A cache ready for simulation: both reserved entries are present
    /// and well formed, every other entry holds exactly the solutions
    /// containing its key, and every letter set realizable by some
    /// solution has an entry.
    pub open spec fn wf(self) -> bool {
        &&& self.config.wf()
        &&& self.table.wf()
        &&& self.table.n_keys() == self.config.spec_n_keys()
        &&& self.model().contains_key(0)
        &&& self.model().contains_key(self.all_key())
        &&& wf_words(self.solutions(), self.config)
        &&& wf_words(self.all_words(), self.config)
        &&& forall|k: Charmask|
            self.model().contains_key(k) && k != self.all_key() ==> self.model()[k] == filter_key(
                self.solutions(),
                k,
            )
        &&& forall|k: Charmask|
            #![trigger filter_key(self.solutions(), k)]
            submask(k, self.config.spec_all_mask()) && k != self.all_key() && filter_key(
                self.solutions(),
                k,
            ).len() > 0 ==> self.model().contains_key(k)
    }
}

/// During construction: every entry of the partial cache already holds
/// exactly the solutions containing its key.
pub open spec fn inv_filter(m: Map<Charmask, Seq<WordView>>, sols: Seq<WordView>) -> bool {
    forall|k: Charmask| #[trigger] m.contains_key(k) ==> m[k] == filter_key(sols, k)
}

/// A key the builder still owes the cache: it extends `key` with letters
/// at or past `from`, at most `depth + 1` of them, and some solution
/// holds all of it.
pub open spec fn wanted(
    sols: Seq<WordView>,
    cfg: Config,
    key: Charmask,
    from: u32,
    depth: u32,
    km: Charmask,
) -> bool {
    &&& submask(km, cfg.spec_all_mask())
    &&& submask(key, km)
    &&& km != key
    &&& (km & !key) & lowmask(from) == 0
    &&& pop(km & !key) <= depth + 1
    &&& filter_key(sols, km).len() > 0
}

/// An empty cache for the configured alphabet.
pub fn default_wordcache(cfg: Config) -> (r: WordCache)
    requires
        cfg.wf(),
    ensures
        r.config == cfg,
        r.table.wf(),
        r.table.n_keys() == cfg.spec_n_keys(),
        r.model() == Map::<Charmask, Seq<WordView>>::empty(),
{
    let n: u32 = cfg.alphabet_len;
    assert(n <= 26 ==> (1usize << n) as u64 == 1u64 << n && 1u64 << n >= 1) by (bit_vector);
    let n_keys: usize = 1usize << n;
    let r = WordCache { table: ThinArray::default(n_keys), config: cfg };
    proof {
        assert(r.model() =~= Map::<Charmask, Seq<WordView>>::empty());
    }
    r
}

/// Fill the cache with every letter set that extends `key` by letters at
/// or past `next_c`, going at most `depth` letters deeper, and is held
/// by at least one solution.  `subcache` holds exactly the solutions
/// containing `key`.
fn _generate_wordcache_nested(
    cache: &mut WordCache,
    subcache: &Vec<Word>,
    key: Charmask,
    next_c: u32,
    depth: u32,
    Ghost(sols): Ghost<Seq<WordView>>,
)
    requires
        old(cache).config.wf(),
        old(cache).table.wf(),
        old(cache).table.n_keys() == old(cache).config.spec_n_keys(),
        wf_words(sols, old(cache).config),
        next_c <= old(cache).config.alphabet_len,
        submask(key, lowmask(next_c)),
        submask(key, old(cache).config.spec_all_mask()),
        words_view(subcache@) == filter_key(sols, key),
        inv_filter(old(cache).model(), sols),
    ensures
        final(cache).config == old(cache).config,
        final(cache).table.wf(),
        final(cache).table.n_keys() == old(cache).table.n_keys(),
        inv_filter(final(cache).model(), sols),
        forall|k: Charmask| #[trigger]
            old(cache).model().contains_key(k) ==> final(cache).model().contains_key(k),
        forall|km: Charmask|
            wanted(sols, old(cache).config, key, next_c, depth, km)
                ==> final(cache).model().contains_key(km),
    decreases depth,
{
    let ghost cfg = cache.config;
    let ghost m_start = cache.model();
    let ghost wv = words_view(subcache@);
    let alphabet_len = cache.config.alphabet_len;
    let mut c: u32 = next_c;
    while c < alphabet_len
        invariant
            cfg == cache.config,
            cfg.wf(),
            cache.table.wf(),
            cache.table.n_keys() == cfg.spec_n_keys(),
            wf_words(sols, cfg),
            alphabet_len == cfg.alphabet_len,
            next_c <= c <= alphabet_len,
            submask(key, lowmask(next_c)),
            submask(key, cfg.spec_all_mask()),
            wv == words_view(subcache@),
            wv == filter_key(sols, key),
            inv_filter(cache.model(), sols),
            forall|k: Charmask| #[trigger]
                m_start.contains_key(k) ==> cache.model().contains_key(k),
            forall|km: Charmask|
                wanted(sols, cfg, key, next_c, depth, km) && (km & !key) & lowmask(c) != 0
                    ==> cache.model().contains_key(km),
        decreases alphabet_len - c,
    {
        let ghost m_pre = cache.model();
        let cb: Charmask = 1u32 << c;
        proof {
            lemma_step(key, next_c, c);
        }
        let mut sc2: Vec<Word> = Vec::new();
        let mut i: usize = 0;
        while i < subcache.len()
            invariant
                wv == words_view(subcache@),
                0 <= i <= subcache@.len(),
                words_view(sc2@) == filter_key(wv.take(i as int), cb),
            decreases subcache@.len() - i,
        {
            proof {
                assert(wv.take(i + 1) =~= wv.take(i as int).push(wv[i as int]));
                lemma_filter_key_push(wv.take(i as int), cb, wv[i as int]);
            }
            if subcache[i].full_mask & cb == cb {
                sc2.push(subcache[i].clone());
                proof {
                    assert(words_view(sc2@) =~= filter_key(wv.take(i as int), cb).push(
                        wv[i as int],
                    ));
                }
            }
            i = i + 1;
        }
        proof {
            assert(wv.take(subcache@.len() as int) =~= wv);
            lemma_filter_key_compose(sols, key, cb);
            lemma_sub(key, cb, 0);
            assert(words_view(sc2@) == filter_key(sols, key | cb));
        }
        let ghost key2g: Charmask = key | cb;
        if sc2.len() > 0 {
            let key2: Charmask = key | cb;
            proof {
                lemma_two_bits(c, alphabet_len);
                lemma_sub(key, cb, cfg.spec_all_mask());
                lemma_step(key2, cfg.alphabet_len, 26);
                assert((key2 as u64) < (1u64 << cfg.alphabet_len));
            }
            if depth > 0 {
                _generate_wordcache_nested(cache, &sc2, key2, c + 1, depth - 1, Ghost(sols));
            }
            let ghost m_mid = cache.model();
            let ghost sc2v = words_view(sc2@);
            cache.table.insert(key2, sc2);
            proof {
                assert(cache.model() =~= m_mid.insert(key2, sc2v));
                assert forall|km: Charmask|
                    wanted(sols, cfg, key, next_c, depth, km) && (km & !key) & lowmask(
                        (c + 1) as u32,
                    ) != 0 implies cache.model().contains_key(km) by {
                    lemma_extras(km, key, c);
                    if (km & !key) & lowmask(c) != 0 {
                        assert(m_pre.contains_key(km));
                    } else {
                        assert((km & !key) & letter_bit(c) == letter_bit(c));
                        if km == key2 {
                            assert(cache.model().contains_key(km));
                        } else {
                            let ghost e2 = (km & !key) & !letter_bit(c);
                            lemma_extras(km, key2, c);
                            assert(km & !key2 == e2);
                            assert(e2 != 0);
                            lemma_pop_nonzero(e2);
                            lemma_pop_add_bit(e2, c);
                            assert(pop(km & !key) == pop(e2) + 1);
                            assert(depth > 0);
                            assert(wanted(sols, cfg, key2, (c + 1) as u32, (depth - 1) as u32, km));
                            assert(m_mid.contains_key(km));
                        }
                    }
                }
            }
        } else {
            proof {
                assert forall|km: Charmask|
                    wanted(sols, cfg, key, next_c, depth, km) && (km & !key) & lowmask(
                        (c + 1) as u32,
                    ) != 0 implies cache.model().contains_key(km) by {
                    lemma_extras(km, key, c);
                    if (km & !key) & lowmask(c) != 0 {
                        assert(m_pre.contains_key(km));
                    } else {
                        assert((km & !key) & letter_bit(c) == letter_bit(c));
                        lemma_filter_key_mono(sols, key2g, km);
                        assert(filter_key(sols, key2g).len() > 0);
                        assert(false);
                    }
                }
            }
        }
        c = c + 1;
    }
    proof {
        assert forall|km: Charmask| wanted(sols, cfg, key, next_c, depth, km) implies cache
            .model().contains_key(km) by {
            lemma_extras(km, key, alphabet_len);
        }
    }
}

/// Build the cache for a guessable word list whose first `n_solutions`
/// words form the pool of possible hidden solutions: every letter set
/// realizable by a solution gets the list of solutions containing it,
/// and the two reserved entries are filled last.
pub fn generate_wordcache(cfg: Config, valid_words: Vec<Word>, n_solutions: usize) -> (r:
    WordCache)
    requires
        cfg.wf(),
        1 <= n_solutions <= valid_words@.len(),
        wf_words(words_view(valid_words@), cfg),
    ensures
        r.wf(),
        r.config == cfg,
        r.solutions() == words_view(valid_words@).take(n_solutions as int),
        r.all_words() == words_view(valid_words@),
{
    let ghost wvw = words_view(valid_words@);
    let mut cache = default_wordcache(cfg);
    let mut valid_solutions: Vec<Word> = Vec::new();
    let mut i: usize = 0;
    while i < n_solutions
        invariant
            n_solutions <= valid_words@.len(),
            wvw == words_view(valid_words@),
            0 <= i <= n_solutions,
            words_view(valid_solutions@) =~= wvw.take(i as int),
        decreases n_solutions - i,
    {
        let w = valid_words[i].clone();
        let ghost vs0 = valid_solutions@;
        valid_solutions.push(w);
        proof {
            assert(wvw.len() == valid_words@.len());
            assert(words_view(vs0).len() == vs0.len());
            assert(vs0.len() == i as int);
            assert(valid_solutions@ == vs0.push(w));
            assert(w@ == wvw[i as int]);
            assert forall|j: int| 0 <= j < vs0.len() + 1 implies words_view(vs0.push(w))[j]
                == wvw.take(i + 1)[j] by {
                assert(words_view(vs0.push(w))[j] == vs0.push(w)[j]@);
                if j < vs0.len() {
                    assert(vs0.push(w)[j] == vs0[j]);
                    assert(words_view(vs0)[j] == vs0[j]@);
                } else {
                    assert(vs0.push(w)[j] == w);
                }
            }
            assert(words_view(valid_solutions@) =~= wvw.take(i + 1));
        }
        i = i + 1;
    }
    let ghost sols = wvw.take(n_solutions as int);
    proof {
        assert(lowmask(0) == 0u32) by (bit_vector);
        lemma_extras(0, 0, 0);
        lemma_extras(cfg.spec_all_mask(), 0, 0);
        lemma_filter_key_zero(sols);
        assert(words_view(valid_solutions@) == filter_key(sols, 0));
        assert(wf_words(sols, cfg));
    }
    let depth: u32 = cfg.word_length as u32;
    _generate_wordcache_nested(&mut cache, &valid_solutions, 0, 0, depth, Ghost(sols));
    let ghost m_built = cache.model();
    proof {
        lemma_step(0, cfg.alphabet_len, 26);
        lemma_sub(0, 0, lowmask(0));
    }
    cache.table.insert(0, valid_solutions);
    let ghost m_sols = cache.model();
    proof {
        assert(m_sols =~= m_built.insert(0, sols));
    }
    let all_key: Charmask = cache.config.all_mask();
    cache.table.insert(all_key, valid_words);
    proof {
        assert(cache.model() =~= m_sols.insert(all_key, wvw));
        assert(cache.solutions() == sols);
        assert(cache.all_words() == wvw);
        assert forall|k: Charmask|
            cache.model().contains_key(k) && k != cache.all_key() implies cache.model()[k]
            == filter_key(cache.solutions(), k) by {
            if k == 0 {
                lemma_filter_key_zero(sols);
            } else {
                assert(m_built.contains_key(k) && m_built[k] == filter_key(sols, k));
            }
        }
        assert forall|km: Charmask|
            #![trigger filter_key(cache.solutions(), km)]
            submask(km, cfg.spec_all_mask()) && km != cache.all_key() && filter_key(
                cache.solutions(),
                km,
            ).len() > 0 implies cache.model().contains_key(km) by {
            if km != 0 {
                lemma_extras(km, 0, 0);
                lemma_contains_or(km, 0, 0);
                lemma_key_pop(sols, km, cfg);
                assert(wanted(sols, cfg, 0, 0, depth, km));
                assert(m_built.contains_key(km));
            }
        }
    }
    cache
}

/// A key kept by some word of a well-formed pool has at most
/// `word_length` letters.
pub proof fn lemma_key_pop(s: Seq<WordView>, k: Charmask, cfg: Config)
    requires
        wf_words(s, cfg),
        filter_key(s, k).len() > 0,
    ensures
        pop(k) <= cfg.word_length,
{
    lemma_filter_key_sub(s, k);
    let w = filter_key(s, k)[0];
    let j = choose|j: int| 0 <= j < s.len() && s[j] == w;
    lemma_sub(w.full, k, 0);
    lemma_pop_submask(k, w.full);
    lemma_pop_full(w, cfg);
}

} // verus!
