use wordle_solver::WordleError;
use wordle_solver::dict::load_dictionary;
use wordle_solver::entropy::{calculate_entropy, log2_fixed};
use wordle_solver::filter::{filter_candidates, word_matches};
use wordle_solver::pattern::{compute_pattern, get_feedback_pattern, parse_pattern, Feedback};
use wordle_solver::rank::{lex_less, rank};

fn w(s: &str) -> Vec<u8> {
    s.as_bytes().to_vec()
}

fn ws(list: &[&str]) -> Vec<Vec<u8>> {
    list.iter().map(|s| w(s)).collect()
}

#[test]
fn pattern_apple_vs_amber() {
    // position-wise: a=Hit, p and p absent (no p in amber), l absent,
    // e occurs in amber away from its slot: Present
    let p = compute_pattern(&w("apple"), &w("amber")).unwrap();
    assert_eq!(
        p,
        vec![
            Feedback::Hit,
            Feedback::Absent,
            Feedback::Absent,
            Feedback::Absent,
            Feedback::Present,
        ]
    );
}

#[test]
fn pattern_encoding_bytes() {
    let p = get_feedback_pattern(&w("apple"), &w("amber"));
    assert_eq!(p, w("@???#"));
}

#[test]
fn pattern_hits_count_equals_positional_matches() {
    let p = compute_pattern(&w("crate"), &w("trace")).unwrap();
    let hits = p.iter().filter(|f| **f == Feedback::Hit).count();
    let eq_positions = "crate"
        .as_bytes()
        .iter()
        .zip("trace".as_bytes())
        .filter(|(a, b)| a == b)
        .count();
    assert_eq!(hits, eq_positions);
}

#[test]
fn pattern_duplicate_letters_never_overcount() {
    // one 's' of "sassy" can be marked at most as often as "bossy" holds it
    // beyond its exact matches
    let p = compute_pattern(&w("sassy"), &w("bossy")).unwrap();
    assert_eq!(
        p,
        vec![
            Feedback::Absent,
            Feedback::Absent,
            Feedback::Hit,
            Feedback::Hit,
            Feedback::Hit,
        ]
    );
    let p2 = compute_pattern(&w("sassy"), &w("salsa")).unwrap();
    assert_eq!(
        p2,
        vec![
            Feedback::Hit,
            Feedback::Hit,
            Feedback::Absent,
            Feedback::Hit,
            Feedback::Absent,
        ]
    );
}

#[test]
fn pattern_length_mismatch() {
    assert_eq!(
        compute_pattern(&w("apple"), &w("pear")),
        Err(WordleError::LengthMismatch)
    );
}

#[test]
fn parse_pattern_accepts_the_three_symbols() {
    let p = parse_pattern(&w("@#?")).unwrap();
    assert_eq!(p, vec![Feedback::Hit, Feedback::Present, Feedback::Absent]);
}

#[test]
fn parse_pattern_rejects_other_bytes() {
    assert_eq!(parse_pattern(&w("@x?")), Err(WordleError::InvalidSymbol));
}

#[test]
fn filter_scenario_apple_amber() {
    // dictionary {apple, anger, amber, alter}, guess "apple", target "amber"
    let dict = ws(&["apple", "anger", "amber", "alter"]);
    let p = compute_pattern(&w("apple"), &w("amber")).unwrap();
    let kept = filter_candidates(&w("apple"), &p, &dict).unwrap();
    assert_eq!(kept, ws(&["anger", "amber"]));
    // monotonicity: the filtered set never grows
    assert!(kept.len() <= dict.len());
}

#[test]
fn filter_retains_target_under_its_own_pattern() {
    let dict = ws(&["apple", "anger", "amber", "alter"]);
    for target in ["apple", "anger", "amber", "alter"] {
        for guess in ["apple", "anger", "amber", "alter"] {
            let p = compute_pattern(&w(guess), &w(target)).unwrap();
            let kept = filter_candidates(&w(guess), &p, &dict).unwrap();
            assert!(kept.contains(&w(target)), "{guess} vs {target}");
        }
    }
}

#[test]
fn filter_length_mismatch() {
    let p = vec![Feedback::Hit];
    assert_eq!(
        filter_candidates(&w("ab"), &p, &ws(&["ab"])),
        Err(WordleError::LengthMismatch)
    );
}

#[test]
fn filter_multiplicity_rule() {
    // 'e' marked Present once and Absent once in "eerie" vs some target:
    // a kept word must hold exactly one 'e'
    let guess = w("eerie");
    let pattern = parse_pattern(&w("#???@")).unwrap();
    // letter e: one Present (pos 0) and one Hit (pos 4) beside one Absent
    // (pos 1), so a kept word holds exactly two e's
    assert!(word_matches(&guess, &pattern, &w("theme")));
    // "those" satisfies every positional rule but holds a single 'e'
    assert!(!word_matches(&guess, &pattern, &w("those")));
}

#[test]
fn log2_fixed_exact_on_powers_of_two() {
    assert_eq!(log2_fixed(1), 0);
    assert_eq!(log2_fixed(2), 65536);
    assert_eq!(log2_fixed(4), 2 * 65536);
    assert_eq!(log2_fixed(1024), 10 * 65536);
    let l3 = log2_fixed(3);
    assert!(65536 < l3 && l3 < 2 * 65536);
}

#[test]
fn entropy_two_distinguishable_words_is_one_bit() {
    // two equally likely, fully distinguishable words: exactly 1.0 bit,
    // scaled by n * 2^16 with n = 2
    let set = ws(&["ab", "ba"]);
    assert_eq!(calculate_entropy(&w("ab"), &set), 2 * 65536);
}

#[test]
fn entropy_indistinguishable_words_is_zero() {
    // a guess whose pattern is the same for every target learns nothing
    let set = ws(&["bb", "cc"]);
    assert_eq!(calculate_entropy(&w("aa"), &set), 0);
}

#[test]
fn entropy_of_singleton_and_empty() {
    assert_eq!(calculate_entropy(&w("ab"), &ws(&["ab"])), 0);
    assert_eq!(calculate_entropy(&w("ab"), &ws(&[])), 0);
}

#[test]
fn rank_singleton_returns_the_word() {
    let r = rank(&ws(&["amber"]), &ws(&[]));
    let (word, _) = r.unwrap();
    assert_eq!(word, w("amber"));
}

#[test]
fn rank_is_deterministic() {
    let set = ws(&["apple", "anger", "amber", "alter"]);
    let excl = ws(&[]);
    let a = rank(&set, &excl);
    let b = rank(&set, &excl);
    assert_eq!(a, b);
}

#[test]
fn rank_tie_break_prefers_lexicographically_smaller() {
    // both words fully distinguish the pair, so their scores tie
    let set = ws(&["ba", "ab"]);
    let (word, score) = rank(&set, &ws(&[])).unwrap();
    assert_eq!(word, w("ab"));
    assert_eq!(score, 2 * 65536);
}

#[test]
fn rank_skips_excluded_words() {
    let set = ws(&["ab", "ba"]);
    let (word, _) = rank(&set, &ws(&["ab"])).unwrap();
    assert_eq!(word, w("ba"));
    assert_eq!(rank(&set, &set), None);
    assert_eq!(rank(&ws(&[]), &ws(&[])), None);
}

#[test]
fn lex_less_orders_bytewise() {
    assert!(lex_less(&w("ab"), &w("ba")));
    assert!(!lex_less(&w("ba"), &w("ab")));
    assert!(!lex_less(&w("ab"), &w("ab")));
    assert!(lex_less(&w("ab"), &w("abc")));
}

#[test]
fn load_dictionary_lowercases_and_dedups() {
    let raw = ws(&["Apple", "APPLE", "banana", "apple"]);
    let d = load_dictionary(&raw).unwrap();
    assert_eq!(d, ws(&["apple", "banana"]));
}

#[test]
fn load_dictionary_refuses_empty_input() {
    assert_eq!(load_dictionary(&ws(&[])), Err(WordleError::EmptyDictionary));
}
