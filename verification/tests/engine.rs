use wordle_rank::Config;
use wordle_rank::cache::WordCache;
use wordle_rank::cache::generate_wordcache;
use wordle_rank::rank::calculate_best2;
use wordle_rank::simulate::SimulationState;
use wordle_rank::simulate::count_remaining;
use wordle_rank::simulate::filter_word;
use wordle_rank::simulate::remaining_ids;
use wordle_rank::simulate::simulate;
use wordle_rank::simulate::simulate_pair;
use wordle_rank::thin_array::ThinArray;
use wordle_rank::word::Word;
use wordle_rank::word::encode;

fn bit(c: char) -> u32 {
    1u32 << (c as u32 - 'A' as u32)
}

fn build(cfg: &Config, words: &[&str]) -> Vec<Word> {
    words.iter().map(|s| encode(cfg, s).expect("word encodes")).collect()
}

/// Solutions AB, BC, CA over the three-letter alphabet A, B, C.
fn small_cache() -> (Config, WordCache) {
    let cfg = Config::new(2, 3).expect("valid configuration");
    let words = build(&cfg, &["AB", "BC", "CA"]);
    let cache = generate_wordcache(cfg, words, 3);
    (cfg, cache)
}

#[test]
fn thin_array_inserts_and_looks_up() {
    let mut t: ThinArray<Vec<u32>> = ThinArray::default(8);
    assert!(!t.contains_key(&3));
    assert!(t.get(3).is_none());
    t.insert(3, vec![1, 2]);
    assert!(t.contains_key(&3));
    assert_eq!(t.get(3), Some(&vec![1, 2]));
    assert!(t.get(5).is_none());
    t.insert(3, vec![7]);
    assert_eq!(t.get(3), Some(&vec![7]));
    t.insert(0, vec![]);
    assert_eq!(t.get(0), Some(&vec![]));
}

#[test]
fn cache_buckets_hold_solutions_with_key() {
    let (_cfg, cache) = small_cache();
    // Bucket of {A}: the solutions containing A, in order: AB, CA.
    let bucket = cache.table.get(bit('A')).expect("bucket for A");
    assert_eq!(bucket.len(), 2);
    assert_eq!(bucket[0].full_mask, bit('A') | bit('B'));
    assert_eq!(bucket[1].full_mask, bit('C') | bit('A'));
    // Bucket of {A, B}: only AB.
    let bucket = cache.table.get(bit('A') | bit('B')).expect("bucket for AB");
    assert_eq!(bucket.len(), 1);
    // The reserved key 0 holds the whole solution pool.
    assert_eq!(cache.table.get(0).expect("solution pool").len(), 3);
    // The whole-alphabet key holds the full guessable list.
    let all_key = bit('A') | bit('B') | bit('C');
    assert_eq!(cache.table.get(all_key).expect("word list").len(), 3);
}

#[test]
fn unknown_cache_key_counts_zero() {
    // Neither AB nor BC holds both A and C, so that key has no bucket
    // and the count is zero rather than an error.
    let cfg = Config::new(2, 3).expect("valid configuration");
    let words = build(&cfg, &["AB", "BC"]);
    let cache = generate_wordcache(cfg, words, 2);
    let state = SimulationState {
        required_chars: bit('A') | bit('C'),
        banned_chars: vec![0, 0],
    };
    assert_eq!(count_remaining(&state, &cache), 0);
}

#[test]
fn filter_word_checks_bans_per_position() {
    assert!(filter_word(&vec![bit('A'), bit('B')], &vec![bit('B'), bit('A')]));
    assert!(!filter_word(&vec![bit('A'), bit('B')], &vec![bit('A'), 0]));
}

#[test]
fn count_is_monotone_in_bans() {
    let (_cfg, cache) = small_cache();
    let free = SimulationState { required_chars: 0, banned_chars: vec![0, 0] };
    let tighter = SimulationState { required_chars: 0, banned_chars: vec![bit('A'), 0] };
    let even_tighter = SimulationState {
        required_chars: 0,
        banned_chars: vec![bit('A') | bit('B'), 0],
    };
    let c0 = count_remaining(&free, &cache);
    let c1 = count_remaining(&tighter, &cache);
    let c2 = count_remaining(&even_tighter, &cache);
    assert_eq!(c0, 3);
    assert_eq!(c1, 2); // AB is gone: A banned in front.
    assert_eq!(c2, 1); // BC is gone too.
    assert!(c2 <= c1 && c1 <= c0);
}

#[test]
fn exact_guess_leaves_only_the_target() {
    let (cfg, cache) = small_cache();
    let target = encode(&cfg, "BC").expect("BC encodes");
    let state = simulate_pair(&cfg, &target, &target);
    assert_eq!(state.required_chars, bit('B') | bit('C'));
    assert_eq!(count_remaining(&state, &cache), 1);
    let ids = remaining_ids(&state, &cache);
    assert_eq!(ids, vec![1]);
}

#[test]
fn disjoint_guess_bans_all_its_letters_everywhere() {
    let cfg = Config::new(2, 4).expect("valid configuration");
    let words = build(&cfg, &["CD", "DC", "AD"]);
    let cache = generate_wordcache(cfg, words, 3);
    let guess = encode(&cfg, "AB").expect("AB encodes");
    let target = encode(&cfg, "CD").expect("CD encodes");
    assert_eq!(guess.full_mask & target.full_mask, 0);
    let state = simulate_pair(&cfg, &guess, &target);
    assert_eq!(state.required_chars, 0);
    assert_eq!(state.banned_chars, vec![bit('A') | bit('B'), bit('A') | bit('B')]);
    // CD and DC avoid A and B; AD does not.
    assert_eq!(count_remaining(&state, &cache), 2);
}

#[test]
fn simulate_finds_the_worst_target() {
    let (_cfg, cache) = small_cache();
    let guess = encode(&Config::new(2, 3).unwrap(), "AB").expect("AB encodes");
    let (worst, worst_target, ids) = simulate(&guess, &cache);
    // Every target leaves exactly one candidate; the first target wins.
    assert_eq!(worst, 1);
    assert_eq!(worst_target, 0);
    assert_eq!(ids, vec![0]);
}

#[test]
fn rank_orders_by_worst_case_and_keeps_ties_stable() {
    let (_cfg, cache) = small_cache();
    let results = calculate_best2(&vec![0], &cache);
    assert_eq!(results.len(), 3);
    // All candidates tie at worst case 1, so input order is kept.
    let order: Vec<usize> = results.iter().map(|e| e.0).collect();
    assert_eq!(order, vec![0, 1, 2]);
    for e in &results {
        assert_eq!(e.1.0, 1);
    }
}

#[test]
fn rank_is_deterministic() {
    let (_cfg, cache) = small_cache();
    let a = calculate_best2(&vec![0, 1], &cache);
    let b = calculate_best2(&vec![0, 1], &cache);
    assert_eq!(a.len(), b.len());
    for (x, y) in a.iter().zip(b.iter()) {
        assert_eq!(x.0, y.0);
        assert_eq!(x.1.0, y.1.0);
        assert_eq!(x.1.1, y.1.1);
        assert_eq!(x.1.2, y.1.2);
    }
}

#[test]
fn rank_puts_better_guesses_first() {
    // The pool AB, CB differs only in front; the guess DD learns
    // nothing, while DD aggregated with AB or CB settles the word.
    let cfg = Config::new(2, 4).expect("valid configuration");
    let words = build(&cfg, &["AB", "CB", "DD"]);
    let cache = generate_wordcache(cfg, words, 2);
    let results = calculate_best2(&vec![2], &cache);
    assert_eq!(results.len(), 3);
    for pair in results.windows(2) {
        assert!(pair[0].1.0 <= pair[1].1.0);
    }
    let order: Vec<usize> = results.iter().map(|e| e.0).collect();
    let worsts: Vec<usize> = results.iter().map(|e| e.1.0).collect();
    assert_eq!(order, vec![0, 1, 2]);
    assert_eq!(worsts, vec![1, 1, 2]);
}

#[test]
fn worked_example_crane_against_slate() {
    let cfg = Config::new(5, 26).expect("valid configuration");
    let guess = encode(&cfg, "CRANE").expect("CRANE encodes");
    let target = encode(&cfg, "SLATE").expect("SLATE encodes");
    let state = simulate_pair(&cfg, &guess, &target);
    // Confirmed present: the shared letters A and E.
    assert_eq!(state.required_chars, bit('A') | bit('E'));
    let all: u32 = (1 << 26) - 1;
    let absent = bit('C') | bit('R') | bit('N');
    // C, R, N are absent from the target: banned at every position.
    for j in 0..5 {
        assert_eq!(state.banned_chars[j] & absent, absent);
    }
    // Exact matches lock A at position 2 and E at position 4.
    assert_eq!(state.banned_chars[2], all & !bit('A'));
    assert_eq!(state.banned_chars[4], all & !bit('E'));
    // Off-position letters are banned only where guessed.
    assert_eq!(state.banned_chars[0], absent);
    assert_eq!(state.banned_chars[1], absent);
    assert_eq!(state.banned_chars[3], absent);

    // Against a small pool, exactly the words with A in place, E in
    // place, and no C, R or N remain.
    let words = build(&cfg, &["SLATE", "PLATE", "SPATE", "TRACE", "ABIDE", "SKATE"]);
    let cache = generate_wordcache(cfg, words, 6);
    assert_eq!(count_remaining(&state, &cache), 4);
    let ids = remaining_ids(&state, &cache);
    assert_eq!(ids, vec![0, 1, 2, 5]);
}
