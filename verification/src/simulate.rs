//! The feedback simulator: what one guess (or aggregated probe) learns
//! against one hidden target, and how many solutions stay consistent.
use vstd::prelude::*;

verus! {

use crate::Charmask;
use crate::Config;
use crate::masks::submask;
use crate::masks::lemma_sub;
use crate::cache::WordCache;
use crate::cache::filter_key;
use crate::cache::contains_all;
use crate::cache::lemma_filter_key_wf;
use crate::word::Word;
use crate::word::WordView;
use crate::word::word_wf;
use crate::word::word_single;
use crate::word::words_view;
use crate::word::wf_words;
use crate::word::lemma_word_full_sub;
use crate::word::masks_equal;

/// What one simulated feedback round knows: the letters the target must
/// contain, and for each position the letters it cannot have there.
pub struct SimulationState {
    pub required_chars: Charmask,
    pub banned_chars: Vec<Charmask>,
}

/// The letters a feedback round confirms present: those the guess and
/// the target share.
pub open spec fn required_spec(g: WordView, t: WordView) -> Charmask {
    g.full & t.full
}

/// The letters banned at position `j`: guessed letters absent from the
/// target (banned everywhere), the guessed letter at `j` when the target
/// has it elsewhere, and every other letter when the guess is exactly
/// right at `j`.
pub open spec fn banned_spec(g: WordView, t: WordView, all: Charmask, j: int) -> Charmask {
    let base = (g.full & !t.full) | (g.bits[j] & !t.bits[j]);
    if g.bits[j] & t.bits[j] != 0 {
        base | (all & !(g.bits[j] & t.bits[j]))
    } else {
        base
    }
}

/// The per-position bans of a whole round.
pub open spec fn banned_seq(g: WordView, t: WordView, all: Charmask, n: int) -> Seq<Charmask> {
    Seq::new(n as nat, |j: int| banned_spec(g, t, all, j))
}

/// The word's letter is allowed at every position.
pub open spec fn survives(bits: Seq<Charmask>, banned: Seq<Charmask>) -> bool {
    forall|j: int| 0 <= j < banned.len() ==> #[trigger] (bits[j] & banned[j]) == 0
}

/// The words of a cache bucket that are consistent with the bans.
pub open spec fn survivors(bucket: Seq<WordView>, banned: Seq<Charmask>) -> Seq<WordView> {
    bucket.filter(|w: WordView| survives(w.bits, banned))
}

/// How many words stay consistent: the surviving part of the bucket of
/// the required letters, or none when no solution holds those letters.
pub open spec fn count_remaining_spec(
    required: Charmask,
    banned: Seq<Charmask>,
    m: Map<Charmask, Seq<WordView>>,
) -> nat {
    if m.contains_key(required) {
        survivors(m[required], banned).len()
    } else {
        0
    }
}

pub proof fn lemma_survivors_push(bucket: Seq<WordView>, banned: Seq<Charmask>, x: WordView)
    ensures
        survivors(bucket.push(x), banned) == if survives(x.bits, banned) {
            survivors(bucket, banned).push(x)
        } else {
            survivors(bucket, banned)
        },
{
    reveal(Seq::filter);
    assert(bucket.push(x).drop_last() =~= bucket);
    assert(bucket.push(x).last() == x);
}

/// Simulate the feedback of `guess` against the hidden `target`,
/// producing the required letters and the per-position bans.
pub fn simulate_pair(cfg: &Config, guess: &Word, target: &Word) -> (r: SimulationState)
    requires
        cfg.wf(),
        word_wf(guess@, *cfg),
        word_wf(target@, *cfg),
    ensures
        r.required_chars == required_spec(guess@, target@),
        r.banned_chars@ == banned_seq(guess@, target@, cfg.spec_all_mask(), cfg.word_length as int),
        submask(r.required_chars, cfg.spec_all_mask()),
{
    let all = cfg.all_mask();
    let required = guess.full_mask & target.full_mask;
    let bans = guess.full_mask & !target.full_mask;
    let n = cfg.word_length;
    let mut banned_chars: Vec<Charmask> = Vec::new();
    let mut j: usize = 0;
    while j < n
        invariant
            cfg.wf(),
            word_wf(guess@, *cfg),
            word_wf(target@, *cfg),
            n == cfg.word_length,
            all == cfg.spec_all_mask(),
            bans == guess@.full & !target@.full,
            0 <= j <= n,
            banned_chars@ =~= banned_seq(guess@, target@, all, n as int).take(j as int),
        decreases n - j,
    {
        let correct = guess.position_masks[j] & target.position_masks[j];
        let mut b = bans | (guess.position_masks[j] & !target.position_masks[j]);
        if correct != 0 {
            b = b | (all & !correct);
        }
        proof {
            assert(banned_seq(guess@, target@, all, n as int).take(j + 1) =~= banned_seq(
                guess@,
                target@,
                all,
                n as int,
            ).take(j as int).push(banned_spec(guess@, target@, all, j as int)));
        }
        banned_chars.push(b);
        j = j + 1;
    }
    proof {
        lemma_word_full_sub(guess@, *cfg);
        lemma_sub(guess@.full, target@.full, cfg.spec_all_mask());
        lemma_sub(guess@.full & target@.full, guess@.full, cfg.spec_all_mask());
    }
    SimulationState { required_chars: required, banned_chars }
}

/// Whether a word's per-position masks avoid every ban.
pub fn filter_word(w: &Vec<Charmask>, banned_chars: &Vec<Charmask>) -> (r: bool)
    requires
        w@.len() >= banned_chars@.len(),
    ensures
        r == survives(w@, banned_chars@),
{
    let n = banned_chars.len();
    let mut j: usize = 0;
    while j < n
        invariant
            n == banned_chars@.len(),
            w@.len() >= n,
            0 <= j <= n,
            forall|k: int| 0 <= k < j ==> #[trigger] (w@[k] & banned_chars@[k]) == 0,
        decreases n - j,
    {
        if w[j] & banned_chars[j] != 0 {
            return false;
        }
        j = j + 1;
    }
    true
}

/// Count the solutions consistent with a feedback round: the bucket of
/// the required letters, filtered by the bans.  A missing bucket means
/// no solution holds the required letters, so none remain.
pub fn count_remaining(state: &SimulationState, wordcache: &WordCache) -> (r: usize)
    requires
        wordcache.wf(),
        submask(state.required_chars, wordcache.config.spec_all_mask()),
        state.banned_chars@.len() == wordcache.config.word_length,
    ensures
        r == count_remaining_spec(
            state.required_chars,
            state.banned_chars@,
            wordcache.model(),
        ),
{
    proof {
        crate::masks::lemma_step(
            state.required_chars,
            wordcache.config.alphabet_len,
            26,
        );
    }
    match wordcache.table.get(state.required_chars) {
        None => 0,
        Some(bucket) => {
            let ghost bv = words_view(bucket@);
            proof {
                assert(bv == wordcache.model()[state.required_chars]);
                lemma_bucket_wf(*wordcache, state.required_chars);
            }
            let n = bucket.len();
            let mut remaining: usize = 0;
            let mut i: usize = 0;
            while i < n
                invariant
                    wordcache.wf(),
                    bv == words_view(bucket@),
                    wf_words(bv, wordcache.config),
                    state.banned_chars@.len() == wordcache.config.word_length,
                    n == bucket@.len(),
                    0 <= i <= n,
                    remaining == survivors(bv.take(i as int), state.banned_chars@).len(),
                    remaining <= i,
                decreases n - i,
            {
                proof {
                    assert(bv.take(i + 1) =~= bv.take(i as int).push(bv[i as int]));
                    lemma_survivors_push(bv.take(i as int), state.banned_chars@, bv[i as int]);
                    assert(bv[i as int].bits == bucket@[i as int]@.bits);
                }
                if filter_word(&bucket[i].position_masks, &state.banned_chars) {
                    remaining = remaining + 1;
                }
                i = i + 1;
            }
            proof {
                assert(bv.take(n as int) =~= bv);
            }
            remaining
        },
    }
}

/// The first position in `sols` of a word with exactly these
/// position masks.
pub open spec fn first_index_of(sols: Seq<WordView>, bits: Seq<Charmask>) -> int
    decreases sols.len(),
{
    if sols.len() == 0 {
        0
    } else if sols[0].bits == bits {
        0
    } else {
        1 + first_index_of(sols.drop_first(), bits)
    }
}

proof fn lemma_first_index(sols: Seq<WordView>, bits: Seq<Charmask>, k: int)
    requires
        0 <= k < sols.len(),
        sols[k].bits == bits,
        forall|j: int| 0 <= j < k ==> sols[j].bits != bits,
    ensures
        first_index_of(sols, bits) == k,
    decreases k,
{
    if k > 0 {
        assert(sols[0].bits != bits);
        assert forall|j: int| 0 <= j < k - 1 implies sols.drop_first()[j].bits != bits by {
            assert(sols.drop_first()[j] == sols[j + 1]);
        }
        assert(sols.drop_first()[k - 1] == sols[k]);
        lemma_first_index(sols.drop_first(), bits, k - 1);
    }
}

/// The solution indices of the surviving words of a bucket.
pub open spec fn surviving_ids(
    bucket: Seq<WordView>,
    banned: Seq<Charmask>,
    sols: Seq<WordView>,
) -> Seq<int> {
    survivors(bucket, banned).map_values(|w: WordView| first_index_of(sols, w.bits))
}

/// The index in the solution list of the first word with these masks.
fn find_word_position(sols_list: &Vec<Word>, bits: &Vec<Charmask>) -> (r: usize)
    requires
        exists|k: int|
            0 <= k < sols_list@.len() && words_view(sols_list@)[k].bits == bits@,
    ensures
        r < sols_list@.len(),
        first_index_of(words_view(sols_list@), bits@) == r as int,
{
    let ghost sv = words_view(sols_list@);
    let n = sols_list.len();
    let mut i: usize = 0;
    while i < n
        invariant
            sv == words_view(sols_list@),
            n == sols_list@.len(),
            0 <= i <= n,
            forall|j: int| 0 <= j < i ==> sv[j].bits != bits@,
            exists|k: int| 0 <= k < sv.len() && sv[k].bits == bits@,
        decreases n - i,
    {
        if masks_equal(&sols_list[i].position_masks, bits) {
            proof {
                lemma_first_index(sv, bits@, i as int);
            }
            return i;
        }
        i = i + 1;
    }
    proof {
        let k = choose|k: int| 0 <= k < sv.len() && sv[k].bits == bits@;
        assert(false);
    }
    vstd::pervasive::unreached()
}

/// The solution indices of the words a feedback round leaves standing.
/// The required key must not be the reserved whole-list key, so its
/// bucket is a sublist of the solution pool.
pub fn remaining_ids(state: &SimulationState, wordcache: &WordCache) -> (r: Vec<usize>)
    requires
        wordcache.wf(),
        submask(state.required_chars, wordcache.config.spec_all_mask()),
        state.required_chars != wordcache.all_key(),
        state.banned_chars@.len() == wordcache.config.word_length,
    ensures
        r@.map_values(|u: usize| u as int) == if wordcache.model().contains_key(
            state.required_chars,
        ) {
            surviving_ids(
                wordcache.model()[state.required_chars],
                state.banned_chars@,
                wordcache.solutions(),
            )
        } else {
            Seq::<int>::empty()
        },
        forall|i: int| 0 <= i < r@.len() ==> #[trigger] r@[i] < wordcache.solutions().len(),
{
    proof {
        crate::masks::lemma_step(state.required_chars, wordcache.config.alphabet_len, 26);
        crate::masks::lemma_step(0, wordcache.config.alphabet_len, 26);
        crate::masks::lemma_extras(0, 0, 0);
    }
    let sols_opt = wordcache.table.get(0);
    let sols_list = match sols_opt {
        Some(s) => s,
        None => {
            proof {
                assert(false);
            }
            vstd::pervasive::unreached()
        },
    };
    let ghost sols = wordcache.solutions();
    proof {
        assert(words_view(sols_list@) == sols);
    }
    let mut r: Vec<usize> = Vec::new();
    match wordcache.table.get(state.required_chars) {
        None => {
            proof {
                assert(r@.map_values(|u: usize| u as int) =~= Seq::<int>::empty());
            }
            r
        },
        Some(bucket) => {
            let ghost bv = words_view(bucket@);
            proof {
                assert(bv == wordcache.model()[state.required_chars]);
                assert(bv == filter_key(sols, state.required_chars));
                lemma_bucket_wf(*wordcache, state.required_chars);
                crate::cache::lemma_filter_key_sub(sols, state.required_chars);
            }
            let n = bucket.len();
            let mut i: usize = 0;
            while i < n
                invariant
                    wordcache.wf(),
                    sols == wordcache.solutions(),
                    words_view(sols_list@) == sols,
                    bv == words_view(bucket@),
                    bv == filter_key(sols, state.required_chars),
                    wf_words(bv, wordcache.config),
                    state.banned_chars@.len() == wordcache.config.word_length,
                    n == bucket@.len(),
                    0 <= i <= n,
                    r@.len() == survivors(bv.take(i as int), state.banned_chars@).len(),
                    forall|p: int|
                        0 <= p < r@.len() ==> #[trigger] r@[p] as int == first_index_of(
                            sols,
                            survivors(bv.take(i as int), state.banned_chars@)[p].bits,
                        ) && r@[p] < sols.len(),
                decreases n - i,
            {
                proof {
                    assert(bv.take(i + 1) =~= bv.take(i as int).push(bv[i as int]));
                    lemma_survivors_push(bv.take(i as int), state.banned_chars@, bv[i as int]);
                    assert(bv[i as int].bits == bucket@[i as int]@.bits);
                }
                if filter_word(&bucket[i].position_masks, &state.banned_chars) {
                    proof {
                        crate::cache::lemma_filter_key_sub(sols, state.required_chars);
                        let k = choose|k: int| 0 <= k < sols.len() && sols[k] == bv[i as int];
                        assert(sols[k].bits == bucket@[i as int]@.bits);
                        assert(words_view(sols_list@)[k].bits == bucket@[i as int]
                            .position_masks@);
                    }
                    let id = find_word_position(sols_list, &bucket[i].position_masks);
                    r.push(id);
                }
                i = i + 1;
            }
            proof {
                assert(bv.take(n as int) =~= bv);
                assert(r@.map_values(|u: usize| u as int) =~= surviving_ids(
                    bv,
                    state.banned_chars@,
                    sols,
                ));
            }
            r
        },
    }
}

/// The worst case over the first `n` solutions: the greatest remaining
/// count and the first target index reaching it.
pub open spec fn pair_count(g: WordView, t: WordView, c: WordCache) -> nat {
    count_remaining_spec(
        required_spec(g, t),
        banned_seq(g, t, c.config.spec_all_mask(), c.config.word_length as int),
        c.model(),
    )
}

pub open spec fn worst_spec(g: WordView, c: WordCache, n: int) -> (nat, int)
    decreases n,
{
    if n <= 0 {
        (0nat, 0int)
    } else {
        let prev = worst_spec(g, c, n - 1);
        let cnt = pair_count(g, c.solutions()[n - 1], c);
        if cnt > prev.0 {
            (cnt, n - 1)
        } else {
            prev
        }
    }
}

/// The record index is a real target index once any count is positive,
/// and then the record count is that target's count.
pub proof fn lemma_worst_props(g: WordView, c: WordCache, n: int)
    ensures
        0 <= worst_spec(g, c, n).1,
        worst_spec(g, c, n).0 > 0 ==> worst_spec(g, c, n).1 < n && pair_count(
            g,
            c.solutions()[worst_spec(g, c, n).1],
            c,
        ) == worst_spec(g, c, n).0,
        worst_spec(g, c, n).0 == 0 ==> worst_spec(g, c, n).1 == 0,
    decreases n,
{
    if n > 0 {
        lemma_worst_props(g, c, n - 1);
    }
}

/// The ids reported for the worst target: empty when every target's
/// count is zero.
pub open spec fn worst_ids(g: WordView, c: WordCache) -> Seq<int> {
    let ws = worst_spec(g, c, c.solutions().len() as int);
    if ws.0 == 0 {
        Seq::<int>::empty()
    } else {
        let t = c.solutions()[ws.1];
        surviving_ids(
            c.model()[required_spec(g, t)],
            banned_seq(g, t, c.config.spec_all_mask(), c.config.word_length as int),
            c.solutions(),
        )
    }
}

/// Evaluate a guess against every possible hidden solution: the
/// worst-case remaining count, the first target reaching it, and the
/// solution ids still consistent against that target.
pub fn simulate(guess: &Word, wordcache: &WordCache) -> (r: (usize, usize, Vec<usize>))
    requires
        wordcache.wf(),
        word_wf(guess@, wordcache.config),
    ensures
        r.0 as nat == worst_spec(guess@, *wordcache, wordcache.solutions().len() as int).0,
        r.1 as int == worst_spec(guess@, *wordcache, wordcache.solutions().len() as int).1,
        r.2@.map_values(|u: usize| u as int) == worst_ids(guess@, *wordcache),
        forall|i: int| 0 <= i < r.2@.len() ==> #[trigger] r.2@[i] < wordcache.solutions().len(),
{
    let cfg = wordcache.config;
    proof {
        crate::masks::lemma_step(0, cfg.alphabet_len, 26);
        crate::masks::lemma_extras(0, 0, 0);
    }
    let sols_opt = wordcache.table.get(0);
    let sols_list = match sols_opt {
        Some(s) => s,
        None => {
            proof {
                assert(false);
            }
            vstd::pervasive::unreached()
        },
    };
    let ghost sols = wordcache.solutions();
    proof {
        assert(words_view(sols_list@) == sols);
    }
    let n = sols_list.len();
    let mut worst: usize = 0;
    let mut worst_w: usize = 0;
    let mut ti: usize = 0;
    while ti < n
        invariant
            wordcache.wf(),
            word_wf(guess@, wordcache.config),
            cfg == wordcache.config,
            sols == wordcache.solutions(),
            words_view(sols_list@) == sols,
            n == sols_list@.len(),
            0 <= ti <= n,
            worst as nat == worst_spec(guess@, *wordcache, ti as int).0,
            worst_w as int == worst_spec(guess@, *wordcache, ti as int).1,
        decreases n - ti,
    {
        let target = &sols_list[ti];
        proof {
            assert(target@ == sols[ti as int]);
            assert(word_wf(target@, cfg));
        }
        let state = simulate_pair(&cfg, guess, target);
        let cnt = count_remaining(&state, wordcache);
        proof {
            assert(cnt as nat == pair_count(guess@, sols[ti as int], *wordcache));
        }
        if cnt > worst {
            worst = cnt;
            worst_w = ti;
        }
        ti = ti + 1;
    }
    let ids: Vec<usize> = if worst > 0 {
        proof {
            lemma_worst_props(guess@, *wordcache, n as int);
        }
        let target = &sols_list[worst_w];
        proof {
            assert(target@ == sols[worst_w as int]);
            assert(word_wf(target@, cfg));
        }
        let state = simulate_pair(&cfg, guess, target);
        proof {
            lemma_required_not_all(guess@, target@, *wordcache);
        }
        remaining_ids(&state, wordcache)
    } else {
        Vec::new()
    };
    proof {
        if worst == 0 {
            assert(ids@.map_values(|u: usize| u as int) =~= Seq::<int>::empty());
        }
    }
    (worst, worst_w, ids)
}

/// The shared letters of two words never form the reserved
/// whole-alphabet key: a word is too short to hold every letter.
pub proof fn lemma_required_not_all(g: WordView, t: WordView, c: WordCache)
    requires
        c.wf(),
        word_wf(t, c.config),
        word_single(t),
    ensures
        required_spec(g, t) != c.all_key(),
        submask(required_spec(g, t), t.full),
{
    lemma_sub(t.full, g.full, 0);
    lemma_sub(g.full & t.full, t.full, 0);
    crate::masks::lemma_pop_submask(required_spec(g, t), t.full);
    crate::word::lemma_pop_full(t, c.config);
    crate::masks::lemma_pop_lowmask(c.config.alphabet_len);
}

proof fn lemma_survivors_monotone(
    bucket: Seq<WordView>,
    b1: Seq<Charmask>,
    b2: Seq<Charmask>,
)
    requires
        b1.len() == b2.len(),
        forall|j: int| 0 <= j < b1.len() ==> submask(#[trigger] b1[j], b2[j]),
    ensures
        survivors(bucket, b2).len() <= survivors(bucket, b1).len(),
    decreases bucket.len(),
{
    if bucket.len() > 0 {
        let t = bucket.drop_last();
        let x = bucket.last();
        lemma_survivors_monotone(t, b1, b2);
        assert(bucket =~= t.push(x));
        lemma_survivors_push(t, b1, x);
        lemma_survivors_push(t, b2, x);
        if survives(x.bits, b2) {
            assert forall|j: int| 0 <= j < b1.len() implies #[trigger] (x.bits[j] & b1[j])
                == 0 by {
                lemma_sub(b1[j], b2[j], x.bits[j]);
            }
        }
    }
}

/// Law: tightening the bans never increases the remaining count.  If
/// every per-position ban of one round lies inside the ban of another,
/// the second round keeps at most as many words.
pub proof fn lemma_count_remaining_monotone(
    required: Charmask,
    b1: Seq<Charmask>,
    b2: Seq<Charmask>,
    m: Map<Charmask, Seq<WordView>>,
)
    requires
        b1.len() == b2.len(),
        forall|j: int| 0 <= j < b1.len() ==> submask(#[trigger] b1[j], b2[j]),
    ensures
        count_remaining_spec(required, b2, m) <= count_remaining_spec(required, b1, m),
{
    if m.contains_key(required) {
        lemma_survivors_monotone(m[required], b1, b2);
    }
}

/// Law: a guess sharing no letters with the target requires nothing and
/// bans every guessed letter at every position, so exactly the
/// solutions avoiding all guessed letters remain.
pub proof fn lemma_disjoint_guess(g: WordView, t: WordView, c: WordCache)
    requires
        c.wf(),
        word_wf(g, c.config),
        word_wf(t, c.config),
        g.full & t.full == 0,
    ensures
        required_spec(g, t) == 0,
        forall|j: int|
            0 <= j < c.config.word_length ==> #[trigger] banned_seq(
                g,
                t,
                c.config.spec_all_mask(),
                c.config.word_length as int,
            )[j] == g.full,
        count_remaining_spec(
            required_spec(g, t),
            banned_seq(g, t, c.config.spec_all_mask(), c.config.word_length as int),
            c.model(),
        ) == c.solutions().filter(|w: WordView| w.full & g.full == 0).len(),
{
    let cfg = c.config;
    let all = cfg.spec_all_mask();
    let wl = cfg.word_length as int;
    let banned = banned_seq(g, t, all, wl);
    crate::word::lemma_full_mask_is_union(g, cfg);
    crate::word::lemma_full_mask_is_union(t, cfg);
    assert forall|j: int| 0 <= j < wl implies #[trigger] banned[j] == g.full by {
        lemma_sub(g.full, t.full, 0);
        assert(t.full & g.full == 0);
        lemma_sub(t.bits[j], t.full, g.full);
        lemma_sub(g.full, t.bits[j], 0);
        assert(t.bits[j] & g.full == 0);
        lemma_sub(g.bits[j], g.full, t.bits[j]);
        lemma_sub(t.bits[j], g.bits[j], 0);
        assert(g.bits[j] & t.bits[j] == 0);
        crate::masks::lemma_ban_facts(g.full, t.full, 0);
        crate::masks::lemma_ban_facts(g.bits[j], t.bits[j], 0);
        assert(g.full & !t.full == g.full);
        assert(g.bits[j] & !t.bits[j] == g.bits[j]);
        lemma_sub(g.bits[j], g.full, 0);
        crate::masks::lemma_or_rearrange(g.full, g.bits[j], 0, 0);
        assert(g.full | g.bits[j] == g.full);
    }
    assert(c.model().contains_key(0));
    assert(c.model()[0] == c.solutions());
    let p1 = |w: WordView| survives(w.bits, banned);
    let p2 = |w: WordView| w.full & g.full == 0;
    assert forall|i: int| 0 <= i < c.solutions().len() implies (p1(
        #[trigger] c.solutions()[i],
    ) <==> p2(c.solutions()[i])) by {
        let w = c.solutions()[i];
        assert(word_wf(w, cfg));
        crate::word::lemma_or_seq_disjoint(w.bits, g.full);
        if survives(w.bits, banned) {
            assert forall|j: int| 0 <= j < w.bits.len() implies #[trigger] (w.bits[j] & g.full)
                == 0 by {
                assert(banned[j] == g.full);
                assert(w.bits[j] & banned[j] == 0);
            }
        }
        if w.full & g.full == 0 {
            assert forall|j: int| 0 <= j < banned.len() implies #[trigger] (w.bits[j]
                & banned[j]) == 0 by {
                assert(w.bits[j] & g.full == 0);
            }
        }
    }
    crate::cache::lemma_filter_agree(c.solutions(), p1, p2);
}

/// How many words of the pool have exactly these position masks.
pub open spec fn count_bits_eq(s: Seq<WordView>, bits: Seq<Charmask>) -> nat
    decreases s.len(),
{
    if s.len() == 0 {
        0
    } else {
        count_bits_eq(s.drop_last(), bits) + if s.last().bits == bits {
            1nat
        } else {
            0nat
        }
    }
}

proof fn lemma_exact_survivor(w: WordView, t: WordView, banned: Seq<Charmask>, cfg: Config)
    requires
        cfg.wf(),
        word_wf(w, cfg),
        word_single(w),
        word_wf(t, cfg),
        word_single(t),
        banned.len() == cfg.word_length,
        forall|j: int|
            0 <= j < banned.len() ==> #[trigger] banned[j] == cfg.spec_all_mask() & !t.bits[j],
    ensures
        (contains_all(w, t.full) && survives(w.bits, banned)) <==> w.bits == t.bits,
{
    let all = cfg.spec_all_mask();
    if contains_all(w, t.full) && survives(w.bits, banned) {
        assert forall|j: int| 0 <= j < w.bits.len() implies w.bits[j] == t.bits[j] by {
            assert(w.bits[j] & banned[j] == 0);
            assert(banned[j] == all & !t.bits[j]);
            crate::masks::lemma_ban_facts(w.bits[j], t.bits[j], all);
            assert(submask(w.bits[j], t.bits[j]));
            let cw = choose|c: u32| c < 32 && w.bits[j] == crate::masks::letter_bit(c);
            let ct = choose|c: u32| c < 32 && t.bits[j] == crate::masks::letter_bit(c);
            crate::masks::lemma_two_bits(cw, ct);
            crate::masks::lemma_bit(0, cw);
            if cw != ct {
                assert(w.bits[j] & t.bits[j] == 0);
                assert(w.bits[j] == 0);
                assert(false);
            }
        }
        assert(w.bits =~= t.bits);
    }
    if w.bits == t.bits {
        assert(w.full == t.full);
        lemma_sub(t.full, t.full, 0);
        assert(contains_all(w, t.full));
        assert forall|j: int| 0 <= j < banned.len() implies #[trigger] (w.bits[j] & banned[j])
            == 0 by {
            crate::masks::lemma_ban_facts(0, t.bits[j], all);
            assert(t.bits[j] & (all & !t.bits[j]) == 0);
        }
    }
}

proof fn lemma_exact_count(
    sols: Seq<WordView>,
    t: WordView,
    banned: Seq<Charmask>,
    cfg: Config,
)
    requires
        cfg.wf(),
        wf_words(sols, cfg),
        word_wf(t, cfg),
        word_single(t),
        banned.len() == cfg.word_length,
        forall|j: int|
            0 <= j < banned.len() ==> #[trigger] banned[j] == cfg.spec_all_mask() & !t.bits[j],
    ensures
        survivors(filter_key(sols, t.full), banned).len() == count_bits_eq(sols, t.bits),
    decreases sols.len(),
{
    if sols.len() == 0 {
        reveal(Seq::filter);
    } else {
        let s0 = sols.drop_last();
        let x = sols.last();
        assert forall|i: int| 0 <= i < s0.len() implies word_wf(#[trigger] s0[i], cfg)
            && word_single(s0[i]) by {
            assert(s0[i] == sols[i]);
        }
        lemma_exact_count(s0, t, banned, cfg);
        assert(sols =~= s0.push(x));
        crate::cache::lemma_filter_key_push(s0, t.full, x);
        lemma_exact_survivor(x, t, banned, cfg);
        if contains_all(x, t.full) {
            lemma_survivors_push(filter_key(s0, t.full), banned, x);
        }
    }
}

proof fn lemma_count_bits_eq_unique(s: Seq<WordView>, k: int)
    requires
        0 <= k < s.len(),
        forall|i: int, j: int|
            0 <= i < j < s.len() ==> (#[trigger] s[i].bits) != (#[trigger] s[j].bits),
    ensures
        count_bits_eq(s, s[k].bits) == 1,
    decreases s.len(),
{
    let s0 = s.drop_last();
    if k == s.len() - 1 {
        lemma_count_bits_eq_none(s0, s[k].bits);
    } else {
        assert forall|i: int, j: int|
            0 <= i < j < s0.len() implies (#[trigger] s0[i].bits) != (#[trigger] s0[j].bits) by {
            assert(s0[i] == s[i] && s0[j] == s[j]);
        }
        assert(s0[k] == s[k]);
        lemma_count_bits_eq_unique(s0, k);
        assert(s.last().bits != s[k].bits);
    }
}

proof fn lemma_count_bits_eq_none(s: Seq<WordView>, bits: Seq<Charmask>)
    requires
        forall|i: int| 0 <= i < s.len() ==> (#[trigger] s[i].bits) != bits,
    ensures
        count_bits_eq(s, bits) == 0,
    decreases s.len(),
{
    if s.len() > 0 {
        assert forall|i: int| 0 <= i < s.drop_last().len() implies (
        #[trigger] s.drop_last()[i].bits) != bits by {
            assert(s.drop_last()[i] == s[i]);
        }
        lemma_count_bits_eq_none(s.drop_last(), bits);
    }
}

/// Law: guessing the exact hidden target leaves exactly one candidate,
/// the target itself, provided the solution pool has no duplicates.
pub proof fn lemma_exact_guess(c: WordCache, ti: int)
    requires
        c.wf(),
        0 <= ti < c.solutions().len(),
        forall|i: int, j: int|
            0 <= i < j < c.solutions().len() ==> (#[trigger] c.solutions()[i].bits) != (
            #[trigger] c.solutions()[j].bits),
    ensures
        pair_count(c.solutions()[ti], c.solutions()[ti], c) == 1,
{
    let cfg = c.config;
    let all = cfg.spec_all_mask();
    let wl = cfg.word_length as int;
    let t = c.solutions()[ti];
    assert(word_wf(t, cfg) && word_single(t));
    lemma_sub(t.full, t.full, 0);
    assert(required_spec(t, t) == t.full);
    let banned = banned_seq(t, t, all, wl);
    assert forall|j: int| 0 <= j < banned.len() implies #[trigger] banned[j] == all
        & !t.bits[j] by {
        crate::masks::lemma_ban_facts(t.full, t.bits[j], all);
        crate::masks::lemma_ban_facts(t.bits[j], 0, 0);
        lemma_sub(t.bits[j], 0, 0);
        assert(t.full & !t.full == 0);
        assert(t.bits[j] & !t.bits[j] == 0);
        assert(t.bits[j] & t.bits[j] == t.bits[j]);
        assert(t.bits[j] != 0);
        crate::masks::lemma_ban_facts(all & !t.bits[j], t.full, 0);
        crate::masks::lemma_ban_facts(0, 0, 0);
        assert((0u32 | 0u32) | (all & !t.bits[j]) == all & !t.bits[j]);
    }
    lemma_required_not_all(t, t, c);
    crate::word::lemma_word_full_sub(t, cfg);
    crate::cache::lemma_filter_key_mem(c.solutions(), t.full, ti);
    assert(c.model().contains_key(t.full));
    assert(c.model()[t.full] == filter_key(c.solutions(), t.full));
    lemma_exact_count(c.solutions(), t, banned, cfg);
    lemma_count_bits_eq_unique(c.solutions(), ti);
}

/// Every bucket of a well-formed cache holds well-formed words.
pub proof fn lemma_bucket_wf(c: WordCache, k: Charmask)
    requires
        c.wf(),
        c.model().contains_key(k),
    ensures
        wf_words(c.model()[k], c.config),
{
    if k == c.all_key() {
        assert(c.model()[k] == c.all_words());
    } else {
        assert(c.model()[k] == filter_key(c.solutions(), k));
        lemma_filter_key_wf(c.solutions(), k, c.config);
    }
}

} // verus!
