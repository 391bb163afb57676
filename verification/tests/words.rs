use wordle_rank::Config;
use wordle_rank::word::WordError;
use wordle_rank::word::agg_guesses;
use wordle_rank::word::char2bit;
use wordle_rank::word::decode;
use wordle_rank::word::encode;
use wordle_rank::word::find_word_id_from_str;
use wordle_rank::word::masks_equal;
use wordle_rank::word::parse_line;

fn cfg26() -> Config {
    Config::new(5, 26).expect("valid configuration")
}

fn bit(c: char) -> u32 {
    1u32 << (c as u32 - 'A' as u32)
}

#[test]
fn config_rejects_degenerate_shapes() {
    assert!(Config::new(5, 26).is_some());
    assert!(Config::new(0, 26).is_none());
    assert!(Config::new(5, 5).is_none());
    assert!(Config::new(5, 27).is_none());
    assert!(Config::new(25, 26).is_some());
}

#[test]
fn encode_positions_and_full_mask() {
    let cfg = cfg26();
    let w = encode(&cfg, "CRANE").expect("CRANE encodes");
    assert_eq!(w.position_masks, vec![bit('C'), bit('R'), bit('A'), bit('N'), bit('E')]);
    assert_eq!(w.full_mask, bit('C') | bit('R') | bit('A') | bit('N') | bit('E'));
    let mut union = 0u32;
    for m in &w.position_masks {
        union |= m;
    }
    assert_eq!(w.full_mask, union);
}

#[test]
fn encode_repeated_letter() {
    let cfg = cfg26();
    let w = encode(&cfg, "EERIE").expect("EERIE encodes");
    assert_eq!(w.full_mask, bit('E') | bit('R') | bit('I'));
    assert_eq!(w.position_masks[0], bit('E'));
    assert_eq!(w.position_masks[4], bit('E'));
}

#[test]
fn encode_decode_round_trip() {
    let cfg = cfg26();
    let w = encode(&cfg, "SLATE").expect("SLATE encodes");
    let d = decode(&cfg, &w);
    let expected: Vec<char> = "SLATE".chars().collect();
    assert_eq!(d, expected);
}

#[test]
fn encode_rejects_wrong_length() {
    let cfg = cfg26();
    assert!(matches!(encode(&cfg, "SLAT"), Err(WordError::InvalidLength)));
    assert!(matches!(encode(&cfg, "SLATES"), Err(WordError::InvalidLength)));
    assert!(matches!(encode(&cfg, ""), Err(WordError::InvalidLength)));
}

#[test]
fn encode_rejects_bad_symbols() {
    let cfg = cfg26();
    assert!(matches!(encode(&cfg, "SL4TE"), Err(WordError::InvalidSymbol)));
    assert!(matches!(encode(&cfg, "slate"), Err(WordError::InvalidSymbol)));
    // A symbol error is reported even when the length is wrong too.
    assert!(matches!(encode(&cfg, "s"), Err(WordError::InvalidSymbol)));
    assert!(matches!(encode(&cfg, "SL\u{c4}TE"), Err(WordError::InvalidSymbol)));
}

#[test]
fn encode_respects_alphabet_size() {
    let cfg = Config::new(2, 3).expect("valid configuration");
    assert!(encode(&cfg, "AB").is_ok());
    assert!(matches!(encode(&cfg, "AD"), Err(WordError::InvalidSymbol)));
}

#[test]
fn char2bit_maps_letters_to_bits() {
    let cfg = cfg26();
    assert_eq!(char2bit(&cfg, 'A'), 1);
    assert_eq!(char2bit(&cfg, 'Z'), 1 << 25);
}

#[test]
fn parse_line_folds_case() {
    let cfg = cfg26();
    let a = parse_line(&cfg, "crane").expect("lower case accepted");
    let b = encode(&cfg, "CRANE").expect("CRANE encodes");
    assert!(masks_equal(&a.position_masks, &b.position_masks));
    assert_eq!(a.full_mask, b.full_mask);
}

#[test]
fn parse_line_rejects_bad_lines() {
    let cfg = cfg26();
    assert!(parse_line(&cfg, "cran3").is_none());
    assert!(parse_line(&cfg, "cran").is_none());
    assert!(parse_line(&cfg, "cranes").is_none());
    assert!(parse_line(&cfg, "").is_none());
    assert!(parse_line(&cfg, "Crane").is_some());
}

#[test]
fn agg_guesses_unions_positions() {
    let cfg = Config::new(2, 4).expect("valid configuration");
    let ab = encode(&cfg, "AB").expect("AB encodes");
    let cd = encode(&cfg, "CD").expect("CD encodes");
    let g = agg_guesses(&ab, &cd);
    assert_eq!(g.position_masks, vec![bit('A') | bit('C'), bit('B') | bit('D')]);
    assert_eq!(g.full_mask, bit('A') | bit('B') | bit('C') | bit('D'));
}

#[test]
fn find_word_id_finds_first_match() {
    let cfg = Config::new(2, 3).expect("valid configuration");
    let words = vec![
        encode(&cfg, "AB").unwrap(),
        encode(&cfg, "BC").unwrap(),
        encode(&cfg, "CA").unwrap(),
    ];
    assert_eq!(find_word_id_from_str(&cfg, "BC", &words), Some(1));
    assert_eq!(find_word_id_from_str(&cfg, "CB", &words), None);
    assert_eq!(find_word_id_from_str(&cfg, "bc", &words), None);
}
