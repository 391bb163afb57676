//! The ranking driver: aggregate a seed of guesses with every candidate,
//! evaluate the worst case of each candidate in parallel, and sort the
//! results by worst-case count, best first, keeping ties in input order.
use vstd::prelude::*;

use rayon::iter::IndexedParallelIterator;
use rayon::iter::IntoParallelIterator;
use rayon::iter::ParallelIterator;

verus! {

use crate::cache::WordCache;
use crate::word::Word;
use crate::word::WordView;
use crate::word::word_wf;
use crate::word::words_view;
use crate::word::or_word;
use crate::word::agg_guesses;
use crate::word::lemma_or_word_wf;
use crate::simulate::simulate;
use crate::simulate::worst_spec;
use crate::simulate::worst_ids;

/// One ranked result, as the executable code returns it: the candidate
/// guess index, then its worst-case count, the target reaching it, and
/// the ids of the solutions left against that target.
pub type RankEntry = (usize, (usize, usize, Vec<usize>));

/// The observable value of a ranked result.
pub open spec fn entry_view(e: RankEntry) -> (int, nat, int, Seq<int>) {
    (e.0 as int, e.1.0 as nat, e.1.1 as int, e.1.2@.map_values(|u: usize| u as int))
}

/// The aggregated probe of the listed guesses: their union, folded left
/// to right.
pub open spec fn agg_ids(aw: Seq<WordView>, ids: Seq<usize>) -> WordView
    decreases ids.len(),
{
    if ids.len() <= 1 {
        aw[ids[0] as int]
    } else {
        or_word(agg_ids(aw, ids.drop_last()), aw[ids.last() as int])
    }
}

/// Combine the listed guesses into one aggregated probe.
pub fn aggregate_guesses(guess_ids: &Vec<usize>, wordcache: &WordCache) -> (r: Word)
    requires
        wordcache.wf(),
        guess_ids@.len() >= 1,
        forall|i: int|
            0 <= i < guess_ids@.len() ==> #[trigger] guess_ids@[i]
                < wordcache.all_words().len(),
    ensures
        r@ == agg_ids(wordcache.all_words(), guess_ids@),
        word_wf(r@, wordcache.config),
{
    proof {
        crate::masks::lemma_step(0, wordcache.config.alphabet_len, 26);
        crate::masks::lemma_step(
            wordcache.config.spec_all_mask(),
            wordcache.config.alphabet_len,
            26,
        );
    }
    let all_key = wordcache.config.all_mask();
    let all_words = match wordcache.table.get(all_key) {
        Some(s) => s,
        None => {
            proof {
                assert(false);
            }
            vstd::pervasive::unreached()
        },
    };
    let ghost aw = wordcache.all_words();
    proof {
        assert(words_view(all_words@) == aw);
    }
    let mut aggregate_guess = all_words[guess_ids[0]].clone();
    proof {
        assert(aggregate_guess@ == agg_ids(aw, guess_ids@.take(1)));
    }
    let mut i: usize = 1;
    while i < guess_ids.len()
        invariant
            wordcache.wf(),
            aw == wordcache.all_words(),
            words_view(all_words@) == aw,
            guess_ids@.len() >= 1,
            forall|k: int| 0 <= k < guess_ids@.len() ==> #[trigger] guess_ids@[k] < aw.len(),
            1 <= i <= guess_ids@.len(),
            aggregate_guess@ == agg_ids(aw, guess_ids@.take(i as int)),
            word_wf(aggregate_guess@, wordcache.config),
        decreases guess_ids@.len() - i,
    {
        let g = &all_words[guess_ids[i]];
        proof {
            assert(g@ == aw[guess_ids@[i as int] as int]);
            assert(word_wf(g@, wordcache.config));
            lemma_or_word_wf(aggregate_guess@, g@, wordcache.config);
            assert(guess_ids@.take(i + 1).drop_last() =~= guess_ids@.take(i as int));
        }
        aggregate_guess = agg_guesses(&aggregate_guess, g);
        i = i + 1;
    }
    proof {
        assert(guess_ids@.take(guess_ids@.len() as int) =~= guess_ids@);
    }
    aggregate_guess
}

/// The probes the driver ranks: the seed aggregated with each guessable
/// word in turn.
pub open spec fn probe_of(aw: Seq<WordView>, seed: Seq<usize>, i: int) -> WordView {
    or_word(agg_ids(aw, seed), aw[i])
}

/// Aggregate the seed guesses with every guessable word, producing one
/// candidate probe per word.
pub fn aggregate_guesses2(guess_ids: &Vec<usize>, wordcache: &WordCache) -> (r: Vec<Word>)
    requires
        wordcache.wf(),
        guess_ids@.len() >= 1,
        forall|i: int|
            0 <= i < guess_ids@.len() ==> #[trigger] guess_ids@[i]
                < wordcache.all_words().len(),
    ensures
        r@.len() == wordcache.all_words().len(),
        forall|i: int|
            0 <= i < r@.len() ==> #[trigger] words_view(r@)[i] == probe_of(
                wordcache.all_words(),
                guess_ids@,
                i,
            ) && word_wf(words_view(r@)[i], wordcache.config),
{
    let aggregate_guess = aggregate_guesses(guess_ids, wordcache);
    proof {
        crate::masks::lemma_step(
            wordcache.config.spec_all_mask(),
            wordcache.config.alphabet_len,
            26,
        );
    }
    let all_key = wordcache.config.all_mask();
    let all_words = match wordcache.table.get(all_key) {
        Some(s) => s,
        None => {
            proof {
                assert(false);
            }
            vstd::pervasive::unreached()
        },
    };
    let ghost aw = wordcache.all_words();
    proof {
        assert(words_view(all_words@) == aw);
    }
    let n = all_words.len();
    let mut r: Vec<Word> = Vec::new();
    let mut i: usize = 0;
    while i < n
        invariant
            wordcache.wf(),
            aw == wordcache.all_words(),
            words_view(all_words@) == aw,
            aggregate_guess@ == agg_ids(aw, guess_ids@),
            word_wf(aggregate_guess@, wordcache.config),
            n == aw.len(),
            0 <= i <= n,
            r@.len() == i,
            forall|k: int|
                0 <= k < i ==> #[trigger] words_view(r@)[k] == probe_of(aw, guess_ids@, k)
                    && word_wf(words_view(r@)[k], wordcache.config),
        decreases n - i,
    {
        let w = &all_words[i];
        proof {
            assert(w@ == aw[i as int]);
            assert(word_wf(w@, wordcache.config));
            lemma_or_word_wf(aggregate_guess@, w@, wordcache.config);
        }
        let ghost r0 = r@;
        let p = agg_guesses(&aggregate_guess, w);
        r.push(p);
        proof {
            assert forall|k: int| 0 <= k < i + 1 implies #[trigger] words_view(r@)[k]
                == probe_of(aw, guess_ids@, k) && word_wf(words_view(r@)[k], wordcache.config) by {
                assert(words_view(r@)[k] == r@[k]@);
                if k < i {
                    assert(r@[k] == r0[k]);
                    assert(words_view(r0)[k] == r0[k]@);
                }
            }
        }
        i = i + 1;
    }
    r
}

/// Insert a new result behind every earlier result whose count is not
/// larger: ranking is by worst-case count, ascending, and ties keep
/// their input order.
pub open spec fn insort(s: Seq<(int, nat, int, Seq<int>)>, x: (int, nat, int, Seq<int>)) -> Seq<
    (int, nat, int, Seq<int>),
>
    decreases s.len(),
{
    if s.len() == 0 {
        seq![x]
    } else if x.1 < s.last().1 {
        insort(s.drop_last(), x).push(s.last())
    } else {
        s.push(x)
    }
}

/// The stable ascending-by-count ordering of a result sequence.
pub open spec fn sort_spec(s: Seq<(int, nat, int, Seq<int>)>) -> Seq<(int, nat, int, Seq<int>)>
    decreases s.len(),
{
    if s.len() == 0 {
        s
    } else {
        insort(sort_spec(s.drop_last()), s.last())
    }
}

proof fn lemma_insort_at(s: Seq<(int, nat, int, Seq<int>)>, x: (int, nat, int, Seq<int>), p: int)
    requires
        0 <= p <= s.len(),
        forall|j: int| p <= j < s.len() ==> #[trigger] s[j].1 > x.1,
        p > 0 ==> s[p - 1].1 <= x.1,
    ensures
        insort(s, x) == s.take(p) + seq![x] + s.skip(p),
    decreases s.len(),
{
    if s.len() == 0 {
        assert(insort(s, x) =~= s.take(p) + seq![x] + s.skip(p));
    } else if p == s.len() {
        assert(!(x.1 < s.last().1));
        assert(insort(s, x) == s.push(x));
        assert(s.push(x) =~= s.take(p) + seq![x] + s.skip(p));
    } else {
        assert(s[s.len() - 1].1 > x.1);
        let t = s.drop_last();
        assert forall|j: int| p <= j < t.len() implies #[trigger] t[j].1 > x.1 by {
            assert(t[j] == s[j]);
        }
        lemma_insort_at(t, x, p);
        assert(insort(s, x) == insort(t, x).push(s.last()));
        assert(insort(t, x).push(s.last()) =~= s.take(p) + seq![x] + s.skip(p));
    }
}

proof fn lemma_entry_views_skip(s: Seq<RankEntry>, k: int)
    requires
        0 <= k <= s.len(),
    ensures
        s.skip(k).map_values(|e: RankEntry| entry_view(e)) == s.map_values(
            |e: RankEntry| entry_view(e),
        ).skip(k),
{
    let f = |e: RankEntry| entry_view(e);
    assert forall|j: int| 0 <= j < s.skip(k).len() implies #[trigger] s.skip(k).map_values(f)[j]
        == s.map_values(f).skip(k)[j] by {
        assert(s.skip(k)[j] == s[k + j]);
        assert(s.map_values(f)[k + j] == f(s[k + j]));
    }
    assert(s.skip(k).map_values(f) =~= s.map_values(f).skip(k));
}

proof fn lemma_entry_views_splice(r0: Seq<RankEntry>, x: RankEntry, p: int)
    requires
        0 <= p <= r0.len(),
    ensures
        (r0.take(p) + seq![x] + r0.skip(p)).map_values(|e: RankEntry| entry_view(e)) == r0
            .map_values(|e: RankEntry| entry_view(e)).take(p) + seq![entry_view(x)] + r0
            .map_values(|e: RankEntry| entry_view(e)).skip(p),
{
    let f = |e: RankEntry| entry_view(e);
    let s = r0.take(p) + seq![x] + r0.skip(p);
    let t = r0.map_values(f).take(p) + seq![f(x)] + r0.map_values(f).skip(p);
    assert forall|j: int| 0 <= j < s.len() implies #[trigger] s.map_values(f)[j] == t[j] by {
        assert(s.map_values(f)[j] == f(s[j]));
        if j < p {
            assert(s[j] == r0[j]);
            assert(t[j] == r0.map_values(f)[j]);
            assert(r0.map_values(f)[j] == f(r0[j]));
        } else if j == p {
            assert(s[j] == x);
            assert(t[j] == f(x));
        } else {
            assert(s[j] == r0.skip(p)[j - p - 1]);
            assert(r0.skip(p)[j - p - 1] == r0[j - 1]);
            assert(t[j] == r0.map_values(f).skip(p)[j - p - 1]);
            assert(r0.map_values(f).skip(p)[j - p - 1] == r0.map_values(f)[j - 1]);
            assert(r0.map_values(f)[j - 1] == f(r0[j - 1]));
        }
    }
    assert(s.map_values(f) =~= t);
}

/// Sort ranked results by worst-case count, ascending and stable.
fn sort_results(input: Vec<RankEntry>) -> (r: Vec<RankEntry>)
    ensures
        r@.map_values(|e: RankEntry| entry_view(e)) == sort_spec(
            input@.map_values(|e: RankEntry| entry_view(e)),
        ),
{
    let ghost orig = input@.map_values(|e: RankEntry| entry_view(e));
    let mut rest = input;
    let n0 = rest.len();
    proof {
        assert(rest@.len() == n0);
    }
    let mut r: Vec<RankEntry> = Vec::new();
    let mut i: usize = 0;
    while rest.len() > 0
        invariant
            orig.len() <= usize::MAX,
            orig.len() == i + rest@.len(),
            rest@.map_values(|e: RankEntry| entry_view(e)) =~= orig.skip(i as int),
            r@.map_values(|e: RankEntry| entry_view(e)) == sort_spec(orig.take(i as int)),
        decreases rest@.len(),
    {
        let ghost r0 = r@;
        let ghost rv0 = r@.map_values(|e: RankEntry| entry_view(e));
        let ghost rest0 = rest@;
        let x = rest.remove(0);
        proof {
            let rm = rest0.map_values(|e: RankEntry| entry_view(e));
            assert(rm[0] == entry_view(rest0[0]));
            assert(rm[0] == orig.skip(i as int)[0]);
            assert(orig.skip(i as int)[0] == orig[i as int]);
            assert(entry_view(x) == orig[i as int]);
            assert(rest@ =~= rest0.skip(1));
            lemma_entry_views_skip(rest0, 1);
            assert(rm.skip(1) =~= orig.skip(i + 1));
            assert(rest@.map_values(|e: RankEntry| entry_view(e)) == orig.skip(i + 1));
        }
        let key = x.1.0;
        let mut p: usize = r.len();
        while p > 0 && r[p - 1].1.0 > key
            invariant
                r@ == r0,
                0 <= p <= r@.len(),
                forall|j: int| p <= j < r@.len() ==> #[trigger] r@[j].1.0 > key,
            decreases p,
        {
            p = p - 1;
        }
        r.insert(p, x);
        proof {
            assert forall|j: int| p <= j < rv0.len() implies #[trigger] rv0[j].1 > entry_view(
                x,
            ).1 by {
                assert(rv0[j] == entry_view(r0[j]));
            }
            if p > 0 {
                assert(rv0[p - 1] == entry_view(r0[p - 1]));
            }
            lemma_insort_at(rv0, entry_view(x), p as int);
            assert(orig.take(i + 1).drop_last() =~= orig.take(i as int));
            assert(orig.take(i + 1).last() == orig[i as int]);
            assert(sort_spec(orig.take(i + 1)) == insort(sort_spec(orig.take(i as int)), orig[
                i as int]));
            assert(r@ =~= r0.take(p as int) + seq![x] + r0.skip(p as int));
            lemma_entry_views_splice(r0, x, p as int);
        }
        i = i + 1;
    }
    proof {
        assert(orig.take(i as int) =~= orig);
    }
    r
}

/// One evaluated entry of the ranking, as a mathematical value.
pub open spec fn rank_entry_spec(c: WordCache, aw: Seq<WordView>, seed: Seq<usize>, i: int) -> (
    int,
    nat,
    int,
    Seq<int>,
) {
    (
        i,
        worst_spec(probe_of(aw, seed, i), c, c.solutions().len() as int).0,
        worst_spec(probe_of(aw, seed, i), c, c.solutions().len() as int).1,
        worst_ids(probe_of(aw, seed, i), c),
    )
}

/// What ranking a seed against a cache returns: every candidate probe
/// evaluated, then stably sorted by worst-case count.  A pure function
/// of its inputs: ranking is deterministic even though the evaluation
/// runs in parallel.
pub open spec fn rank_spec(seed: Seq<usize>, c: WordCache) -> Seq<(int, nat, int, Seq<int>)> {
    sort_spec(
        Seq::new(c.all_words().len(), |i: int| rank_entry_spec(c, c.all_words(), seed, i)),
    )
}

/// Relies on rayon: an indexed parallel iterator over `0 .. n`, mapped
/// and collected with `collect_into_vec`, yields one result per index,
/// in index order.  The closure only calls the verified `simulate`.
#[verifier::external_body]
fn par_simulate_all(guesses: &Vec<Word>, wordcache: &WordCache) -> (r: Vec<RankEntry>)
    requires
        wordcache.wf(),
        forall|i: int|
            0 <= i < guesses@.len() ==> word_wf(#[trigger] words_view(guesses@)[i],
            wordcache.config),
    ensures
        r@.len() == guesses@.len(),
        forall|i: int|
            0 <= i < r@.len() ==> #[trigger] r@[i].0 == i && r@[i].1.0 as nat == worst_spec(
                words_view(guesses@)[i],
                *wordcache,
                wordcache.solutions().len() as int,
            ).0 && r@[i].1.1 as int == worst_spec(
                words_view(guesses@)[i],
                *wordcache,
                wordcache.solutions().len() as int,
            ).1 && r@[i].1.2@.map_values(|u: usize| u as int) == worst_ids(
                words_view(guesses@)[i],
                *wordcache,
            ),
{
    let mut results: Vec<RankEntry> = Vec::new();
    (0..guesses.len()).into_par_iter().map(|i| (i, simulate(&guesses[i], wordcache)))
        .collect_into_vec(&mut results);
    results
}

/// Rank every candidate probe built from the seed: evaluate the worst
/// case of each in parallel, then sort ascending by worst-case count,
/// ties keeping their input order.
pub fn calculate_best2(seed: &Vec<usize>, wordcache: &WordCache) -> (r: Vec<RankEntry>)
    requires
        wordcache.wf(),
        wordcache.solutions().len() >= 1,
        seed@.len() >= 1,
        forall|i: int|
            0 <= i < seed@.len() ==> #[trigger] seed@[i] < wordcache.all_words().len(),
    ensures
        r@.map_values(|e: RankEntry| entry_view(e)) == rank_spec(seed@, *wordcache),
{
    let guesses = aggregate_guesses2(seed, wordcache);
    let results = par_simulate_all(&guesses, wordcache);
    proof {
        let ev = results@.map_values(|e: RankEntry| entry_view(e));
        let sv = Seq::new(
            wordcache.all_words().len(),
            |i: int| rank_entry_spec(*wordcache, wordcache.all_words(), seed@, i),
        );
        assert forall|i: int| 0 <= i < ev.len() implies ev[i] == sv[i] by {
            assert(ev[i] == entry_view(results@[i]));
        }
        assert(ev =~= sv);
    }
    sort_results(results)
}

/// Law: ranking is deterministic.  Two result lists that both satisfy
/// the ranking contract agree entry by entry in every observable part,
/// parallel evaluation notwithstanding.
pub proof fn lemma_rank_deterministic(
    r1: Seq<RankEntry>,
    r2: Seq<RankEntry>,
    seed: Seq<usize>,
    c: WordCache,
)
    requires
        r1.map_values(|e: RankEntry| entry_view(e)) == rank_spec(seed, c),
        r2.map_values(|e: RankEntry| entry_view(e)) == rank_spec(seed, c),
    ensures
        r1.len() == r2.len(),
        forall|i: int|
            0 <= i < r1.len() ==> #[trigger] r1[i].0 == r2[i].0 && r1[i].1.0 == r2[i].1.0
                && r1[i].1.1 == r2[i].1.1 && r1[i].1.2@ == r2[i].1.2@,
{
    let v1 = r1.map_values(|e: RankEntry| entry_view(e));
    let v2 = r2.map_values(|e: RankEntry| entry_view(e));
    assert(v1.len() == r1.len());
    assert(v2.len() == r2.len());
    assert forall|i: int|
        0 <= i < r1.len() implies #[trigger] r1[i].0 == r2[i].0 && r1[i].1.0 == r2[i].1.0
        && r1[i].1.1 == r2[i].1.1 && r1[i].1.2@ == r2[i].1.2@ by {
        assert(v1[i] == entry_view(r1[i]));
        assert(v2[i] == entry_view(r2[i]));
        assert(entry_view(r1[i]).3 == entry_view(r2[i]).3);
        assert(entry_view(r1[i]).3.len() == r1[i].1.2@.len());
        assert(entry_view(r2[i]).3.len() == r2[i].1.2@.len());
        assert forall|j: int| 0 <= j < r1[i].1.2@.len() implies r1[i].1.2@[j] == r2[i].1.2@[j] by {
            assert(entry_view(r1[i]).3[j] == r1[i].1.2@[j] as int);
            assert(entry_view(r2[i]).3[j] == r2[i].1.2@[j] as int);
        }
        assert(r1[i].1.2@ =~= r2[i].1.2@);
    }
}

} // verus!
