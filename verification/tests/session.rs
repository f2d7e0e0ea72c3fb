use wordle_solver::WordleError;
use wordle_solver::session::{default_opener, GameState, RoundResult, Suggestion};

fn w(s: &str) -> Vec<u8> {
    s.as_bytes().to_vec()
}

fn ws(list: &[&str]) -> Vec<Vec<u8>> {
    list.iter().map(|s| w(s)).collect()
}

#[test]
fn default_opener_is_soare() {
    assert_eq!(default_opener(), w("soare"));
}

#[test]
fn new_refuses_empty_dictionary() {
    match GameState::new(&ws(&[]), &w("soare"), 6) {
        Err(WordleError::EmptyDictionary) => {}
        _ => panic!("an empty dictionary must be refused"),
    }
}

#[test]
fn new_refuses_mixed_word_lengths() {
    match GameState::new(&ws(&["apple", "pear"]), &w("soare"), 6) {
        Err(WordleError::LengthMismatch) => {}
        _ => panic!("words of different lengths must be refused"),
    }
}

#[test]
fn first_round_opens_with_the_opener() {
    let game = GameState::new(&ws(&["apple", "amber"]), &w("soare"), 6).unwrap();
    match game.suggest() {
        Suggestion::Opening(word) => assert_eq!(word, w("soare")),
        _ => panic!("round one must use the opening word"),
    }
}

#[test]
fn full_game_to_a_win() {
    let dict = ws(&["apple", "anger", "amber", "alter"]);
    let mut game = GameState::new(&dict, &w("apple"), 6).unwrap();
    match game.suggest() {
        Suggestion::Opening(word) => assert_eq!(word, w("apple")),
        _ => panic!("round one must use the opening word"),
    }
    // target "amber": pattern for "apple" is @???#
    let r = game.apply_feedback(&w("apple"), &w("@???#"));
    assert_eq!(r, RoundResult::Continue);
    assert_eq!(game.remaining(), 2);
    assert_eq!(game.candidate_words(), &ws(&["anger", "amber"]));
    // both survivors split the pair fully, so the tie-break picks "amber"
    match game.suggest() {
        Suggestion::Ranked(word, score) => {
            assert_eq!(word, w("amber"));
            assert_eq!(score, 2 * 65536);
        }
        _ => panic!("two candidates must be ranked"),
    }
    let r = game.apply_feedback(&w("amber"), &w("@@@@@"));
    assert_eq!(r, RoundResult::Won);
    assert_eq!(game.rounds(), 2);
}

#[test]
fn lone_candidate_is_suggested_without_ranking() {
    let dict = ws(&["apple", "amber"]);
    let mut game = GameState::new(&dict, &w("apple"), 6).unwrap();
    // target "amber": everything but "amber" is filtered away
    let r = game.apply_feedback(&w("apple"), &w("@???#"));
    assert_eq!(r, RoundResult::Continue);
    assert_eq!(game.remaining(), 1);
    match game.suggest() {
        Suggestion::OnlyOne(word) => assert_eq!(word, w("amber")),
        _ => panic!("a lone candidate must be proposed directly"),
    }
}

#[test]
fn rejecting_a_word_keeps_it_a_candidate() {
    let dict = ws(&["anger", "amber"]);
    let mut game = GameState::new(&dict, &w("soare"), 6).unwrap();
    // both words agree with this observation for the opener
    let r = game.apply_feedback(&w("soare"), &w("??###"));
    assert_eq!(r, RoundResult::Continue);
    assert_eq!(game.remaining(), 2);
    game.reject(&w("amber"));
    // the rejected word is not suggested again, but stays in the set
    assert_eq!(game.remaining(), 2);
    match game.suggest() {
        Suggestion::Ranked(word, _) => assert_eq!(word, w("anger")),
        _ => panic!("the other candidate must be ranked"),
    }
    game.reject(&w("anger"));
    match game.suggest() {
        Suggestion::AllRejected => {}
        _ => panic!("with every candidate rejected there is nothing to suggest"),
    }
}

#[test]
fn bad_feedback_is_refused_and_changes_nothing() {
    let dict = ws(&["apple", "amber"]);
    let mut game = GameState::new(&dict, &w("apple"), 6).unwrap();
    let r = game.apply_feedback(&w("apple"), &w("@?"));
    assert_eq!(r, RoundResult::Retry(WordleError::LengthMismatch));
    let r = game.apply_feedback(&w("apple"), &w("@??x?"));
    assert_eq!(r, RoundResult::Retry(WordleError::InvalidSymbol));
    assert_eq!(game.remaining(), 2);
    assert_eq!(game.rounds(), 0);
}

#[test]
fn contradiction_when_nothing_matches() {
    let dict = ws(&["ab", "ba"]);
    let mut game = GameState::new(&dict, &w("ab"), 6).unwrap();
    // "all absent" feedback forbids both letters everywhere
    let r = game.apply_feedback(&w("ab"), &w("??"));
    assert_eq!(r, RoundResult::ContradictionReached);
    assert_eq!(game.remaining(), 0);
    match game.suggest() {
        Suggestion::NoCandidates => {}
        _ => panic!("an empty candidate set has no suggestion"),
    }
}

#[test]
fn guess_limit_ends_the_game() {
    let dict = ws(&["anger", "amber"]);
    let mut game = GameState::new(&dict, &w("soare"), 1).unwrap();
    // a consistent but non-winning observation on the last allowed round
    let r = game.apply_feedback(&w("soare"), &w("??###"));
    assert_eq!(r, RoundResult::OutOfGuesses);
}
