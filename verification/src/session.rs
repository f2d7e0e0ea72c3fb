//! The per-game session logic: which guess to propose each round, and how one
//! round of observed feedback narrows the candidate set and decides whether
//! the game is won, contradicted, out of guesses, or still going. All
//! decisions are pure; reading feedback and printing belong to the caller.

use vstd::prelude::*;
use crate::WordleError;
use crate::pattern::{byte_symbol, is_symbol_byte, parse_pattern, Feedback};
use crate::filter::{copy_word, filter_candidates, filtered, keeps, uniform_lengths, word_views};
use crate::laws::lemma_filtered_elems;
use crate::rank::{contains_word, in_set, is_best, rank};

verus! {

/// What the session proposes when asked for a guess.
pub enum Suggestion {
    /// The first round always opens with the fixed opening word.
    Opening(Vec<u8>),
    /// A single candidate remains; it must be the answer.
    OnlyOne(Vec<u8>),
    /// The candidate with the best entropy score, and that score.
    Ranked(Vec<u8>, u64),
    /// No candidate is consistent with the feedback so far.
    NoCandidates,
    /// Every remaining candidate has been rejected.
    AllRejected,
}

/// The outcome of one round of feedback.
#[derive(Clone, Copy, Debug, PartialEq, Eq, Structural)]
pub enum RoundResult {
    /// Every position was a Hit: the word is found.
    Won,
    /// The game goes on with the narrowed candidate set.
    Continue,
    /// No candidate agrees with the feedback: the target is outside the
    /// dictionary, or an earlier observation was entered incorrectly.
    ContradictionReached,
    /// The limit on guesses is spent.
    OutOfGuesses,
    /// The feedback was refused; the round must be retried, nothing changed.
    Retry(WordleError),
}

/// Whether every symbol of a pattern is a Hit.
pub open spec fn all_hits(p: Seq<Feedback>) -> bool {
    forall|i: int| 0 <= i < p.len() ==> (#[trigger] p[i]) is Hit
}

/// One game's state: the candidate set, the words excluded from future
/// suggestions, the rounds of feedback consumed, and the fixed opener.
pub struct GameState {
    candidates: Vec<Vec<u8>>,
    rejected: Vec<Vec<u8>>,
    rounds_done: usize,
    max_guesses: usize,
    opener: Vec<u8>,
}

impl GameState {
    /// The words still consistent with every observation so far.
    pub closed spec fn candidates_view(&self) -> Seq<Seq<u8>> {
        word_views(self.candidates@)
    }

    /// The words excluded from future suggestions in this game.
    pub closed spec fn rejected_view(&self) -> Seq<Seq<u8>> {
        word_views(self.rejected@)
    }

    /// Feedback rounds consumed so far.
    pub closed spec fn rounds_used(&self) -> int {
        self.rounds_done as int
    }

    /// The limit on feedback rounds.
    pub closed spec fn guess_limit(&self) -> int {
        self.max_guesses as int
    }

    /// The fixed opening word.
    pub closed spec fn opener_view(&self) -> Seq<u8> {
        self.opener@
    }

    /// Well-formed: the candidate set is small enough to rank and all its
    /// words share one length.
    pub closed spec fn wf(&self) -> bool {
        &&& self.candidates@.len() <= 0x10_0000
        &&& uniform_lengths(self.candidates_view())
    }

    /// Starts a game over the dictionary `dict`, opening with `opener`, with
    /// at most `max_guesses` rounds of feedback. An empty dictionary cannot
    /// start a game, and a dictionary whose words differ in length cannot be
    /// played against one fixed word length.
    pub fn new(dict: &Vec<Vec<u8>>, opener: &Vec<u8>, max_guesses: usize) -> (r: Result<
        GameState,
        WordleError,
    >)
        requires
            dict@.len() <= 0x10_0000,
        ensures
            match r {
                Ok(g) => {
                    &&& dict@.len() > 0
                    &&& g.wf()
                    &&& g.candidates_view() == word_views(dict@)
                    &&& g.rejected_view() == Seq::<Seq<u8>>::empty()
                    &&& g.rounds_used() == 0
                    &&& g.guess_limit() == max_guesses as int
                    &&& g.opener_view() == opener@
                },
                Err(e) => {
                    ||| (e == WordleError::EmptyDictionary && dict@.len() == 0)
                    ||| (e == WordleError::LengthMismatch && exists|i: int, j: int|
                        0 <= i < dict@.len() && 0 <= j < dict@.len() && (
                        #[trigger] dict@[i])@.len() != (#[trigger] dict@[j])@.len())
                },
            },
    {
        if dict.len() == 0 {
            return Err(WordleError::EmptyDictionary);
        }
        let first_len = dict[0].len();
        let mut copy: Vec<Vec<u8>> = Vec::new();
        let mut i: usize = 0;
        while i < dict.len()
            invariant
                i <= dict@.len(),
                dict@.len() > 0,
                first_len == dict@[0]@.len(),
                copy@.len() == i,
                forall|k: int| 0 <= k < i ==> (#[trigger] copy@[k])@ == dict@[k]@,
                forall|k: int| 0 <= k < i ==> (#[trigger] dict@[k])@.len() == first_len,
            decreases dict@.len() - i,
        {
            if dict[i].len() != first_len {
                return Err(WordleError::LengthMismatch);
            }
            copy.push(copy_word(&dict[i]));
            i += 1;
        }
        let g = GameState {
            candidates: copy,
            rejected: Vec::new(),
            rounds_done: 0,
            max_guesses,
            opener: copy_word(opener),
        };
        proof {
            assert(g.candidates_view() =~= word_views(dict@));
            assert(g.rejected_view() =~= Seq::<Seq<u8>>::empty());
            assert forall|a: int, b: int|
                0 <= a < g.candidates_view().len() && 0 <= b < g.candidates_view().len() implies (
            #[trigger] g.candidates_view()[a]).len() == (
            #[trigger] g.candidates_view()[b]).len() by {
                assert(g.candidates_view()[a] == copy@[a]@);
                assert(g.candidates_view()[b] == copy@[b]@);
            }
        }
        Ok(g)
    }

    /// How many candidate words remain.
    pub fn remaining(&self) -> (n: usize)
        ensures
            n as int == self.candidates_view().len(),
    {
        self.candidates.len()
    }

    /// The candidate words still possible, in order.
    pub fn candidate_words(&self) -> (ws: &Vec<Vec<u8>>)
        ensures
            word_views(ws@) == self.candidates_view(),
    {
        &self.candidates
    }

    /// Feedback rounds consumed so far.
    pub fn rounds(&self) -> (n: usize)
        ensures
            n as int == self.rounds_used(),
    {
        self.rounds_done
    }

    /// The guess the session proposes next: the opener on the first round;
    /// afterwards the lone candidate if one word remains, otherwise the
    /// candidate with the best entropy score that has not been rejected.
    pub fn suggest(&self) -> (r: Suggestion)
        requires
            self.wf(),
        ensures
            self.rounds_used() == 0 ==> (r matches Suggestion::Opening(w) && w@
                == self.opener_view()),
            self.rounds_used() > 0 && self.candidates_view().len() == 0 ==> r
                is NoCandidates,
            self.rounds_used() > 0 && self.candidates_view().len() == 1 ==> (r matches
                Suggestion::OnlyOne(w) && w@ == self.candidates_view()[0]),
            self.rounds_used() > 0 && self.candidates_view().len() > 1 ==> match r {
                Suggestion::Ranked(w, s) => is_best(
                    self.candidates_view(),
                    self.rejected_view(),
                    w@,
                    s as int,
                ),
                Suggestion::AllRejected => forall|i: int|
                    0 <= i < self.candidates_view().len() ==> in_set(
                        #[trigger] self.candidates_view()[i],
                        self.rejected_view(),
                    ),
                _ => false,
            },
    {
        if self.rounds_done == 0 {
            return Suggestion::Opening(copy_word(&self.opener));
        }
        if self.candidates.len() == 0 {
            return Suggestion::NoCandidates;
        }
        if self.candidates.len() == 1 {
            return Suggestion::OnlyOne(copy_word(&self.candidates[0]));
        }
        match rank(&self.candidates, &self.rejected) {
            Some(ws) => Suggestion::Ranked(ws.0, ws.1),
            None => Suggestion::AllRejected,
        }
    }

    /// Records that the user rejected a suggested word: it will not be
    /// suggested again this game, but stays a possible answer — the candidate
    /// set and the round count are untouched.
    pub fn reject(&mut self, word: &Vec<u8>)
        requires
            old(self).wf(),
        ensures
            final(self).wf(),
            final(self).candidates_view() == old(self).candidates_view(),
            final(self).rounds_used() == old(self).rounds_used(),
            final(self).guess_limit() == old(self).guess_limit(),
            final(self).opener_view() == old(self).opener_view(),
            final(self).rejected_view() == if in_set(word@, old(self).rejected_view()) {
                old(self).rejected_view()
            } else {
                old(self).rejected_view().push(word@)
            },
    {
        if !contains_word(&self.rejected, word) {
            self.rejected.push(copy_word(word));
            proof {
                assert(self.rejected_view() =~= old(self).rejected_view().push(word@));
            }
        }
    }

    /// Consumes one round of feedback, given in the game's three-character
    /// encoding, for the guess that was proposed. Feedback of the wrong
    /// length or with a symbol outside the alphabet is refused and changes
    /// nothing. An all-Hit pattern wins. Otherwise the candidate set is
    /// narrowed to the words consistent with the observation, and the game
    /// ends in contradiction when none is left, or when the guess limit is
    /// spent.
    pub fn apply_feedback(&mut self, guess: &Vec<u8>, feedback: &Vec<u8>) -> (r: RoundResult)
        requires
            old(self).wf(),
            old(self).rounds_used() < old(self).guess_limit(),
        ensures
            final(self).wf(),
            final(self).guess_limit() == old(self).guess_limit(),
            final(self).opener_view() == old(self).opener_view(),
            final(self).rejected_view() == old(self).rejected_view(),
            final(self).candidates_view().len() <= old(self).candidates_view().len(),
            feedback@.len() != guess@.len() ==> r == RoundResult::Retry(
                WordleError::LengthMismatch,
            ) && final(self).candidates_view() == old(self).candidates_view() && final(self).rounds_used() == old(self).rounds_used(),
            feedback@.len() == guess@.len() && (exists|i: int|
                0 <= i < feedback@.len() && !is_symbol_byte(#[trigger] feedback@[i])) ==> r
                == RoundResult::Retry(WordleError::InvalidSymbol) && final(self).candidates_view() == old(self).candidates_view() && final(self).rounds_used() == old(self).rounds_used(),
            (feedback@.len() == guess@.len() && (forall|i: int|
                0 <= i < feedback@.len() ==> is_symbol_byte(#[trigger] feedback@[i]))) ==> {
                let p = feedback@.map_values(|b: u8| byte_symbol(b));
                &&& final(self).rounds_used() == old(self).rounds_used() + 1
                &&& (all_hits(p) ==> r == RoundResult::Won && final(self).candidates_view() == old(self).candidates_view())
                &&& (!all_hits(p) ==> {
                    &&& final(self).candidates_view() == filtered(
                        guess@,
                        p,
                        old(self).candidates_view(),
                    )
                    &&& r == (if final(self).candidates_view().len() == 0 {
                        RoundResult::ContradictionReached
                    } else if final(self).rounds_used() >= final(self).guess_limit() {
                        RoundResult::OutOfGuesses
                    } else {
                        RoundResult::Continue
                    })
                })
            },
    {
        if feedback.len() != guess.len() {
            return RoundResult::Retry(WordleError::LengthMismatch);
        }
        let pattern = match parse_pattern(feedback) {
            Ok(p) => p,
            Err(e) => {
                return RoundResult::Retry(e);
            },
        };
        // an all-Hit observation means the word is found
        let mut won = true;
        let mut i: usize = 0;
        while i < pattern.len()
            invariant
                i <= pattern@.len(),
                won == (forall|k: int| 0 <= k < i ==> (#[trigger] pattern@[k]) is Hit),
            decreases pattern@.len() - i,
        {
            if !(pattern[i] == Feedback::Hit) {
                won = false;
            }
            i += 1;
        }
        if won {
            self.rounds_done = self.rounds_done + 1;
            return RoundResult::Won;
        }
        let narrowed = match filter_candidates(guess, &pattern, &self.candidates) {
            Ok(out) => out,
            Err(e) => {
                // the pattern's length was checked against the guess above
                proof {
                    assert(false);
                }
                return RoundResult::Retry(e);
            },
        };
        proof {
            lemma_filtered_elems(guess@, pattern@, old(self).candidates_view());
            assert forall|a: int, b: int|
                0 <= a < word_views(narrowed@).len() && 0 <= b < word_views(narrowed@).len()
                    implies (#[trigger] word_views(narrowed@)[a]).len() == (
                #[trigger] word_views(narrowed@)[b]).len() by {
                assert(keeps(guess@, pattern@, word_views(narrowed@)[a]));
                assert(keeps(guess@, pattern@, word_views(narrowed@)[b]));
            }
            assert(uniform_lengths(word_views(narrowed@)));
        }
        self.candidates = narrowed;
        self.rounds_done = self.rounds_done + 1;
        if self.candidates.len() == 0 {
            return RoundResult::ContradictionReached;
        }
        if self.rounds_done >= self.max_guesses {
            return RoundResult::OutOfGuesses;
        }
        RoundResult::Continue
    }
}

/// The fixed opening word of a session, a common first guess.
pub fn default_opener() -> (w: Vec<u8>)
    ensures
        w@ == seq![115u8, 111u8, 97u8, 114u8, 101u8],
{
    let mut w: Vec<u8> = Vec::new();
    w.push(115);
    w.push(111);
    w.push(97);
    w.push(114);
    w.push(101);
    proof {
        assert(w@ =~= seq![115u8, 111u8, 97u8, 114u8, 101u8]);
    }
    w
}

} // verus!
