//! The constraint filter: given a guess, an observed feedback pattern, and a
//! candidate set, keep exactly the candidates consistent with the observation.

use vstd::prelude::*;
use crate::WordleError;
use crate::pattern::{Feedback, cnt_letter, count_letter, lemma_cnt_letter_le};

verus! {

/// Positions among the first `k` where the guess holds `c` and the pattern
/// marks it Absent (when `absent` is true) or Hit/Present (when false).
pub open spec fn cnt_marked(g: Seq<u8>, p: Seq<Feedback>, c: u8, k: int, absent: bool) -> nat
    decreases k,
{
    if k <= 0 {
        0
    } else {
        cnt_marked(g, p, c, k - 1, absent) + if g[k - 1] == c && ((p[k - 1] is Absent)
            == absent) {
            1nat
        } else {
            0nat
        }
    }
}

/// How many positions mark the letter `c` as Hit or Present.
pub open spec fn colored_count(g: Seq<u8>, p: Seq<Feedback>, c: u8) -> nat {
    cnt_marked(g, p, c, g.len() as int, false)
}

/// How many positions mark the letter `c` as Absent.
pub open spec fn gray_count(g: Seq<u8>, p: Seq<Feedback>, c: u8) -> nat {
    cnt_marked(g, p, c, g.len() as int, true)
}

/// The multiplicity rule for one letter: a gray mark fixes the candidate's
/// count of that letter to exactly the number of Hit/Present marks; without a
/// gray mark the candidate must hold at least that many.
pub open spec fn letter_ok(g: Seq<u8>, p: Seq<Feedback>, w: Seq<u8>, c: u8) -> bool {
    if gray_count(g, p, c) > 0 {
        count_letter(w, c) == colored_count(g, p, c)
    } else {
        count_letter(w, c) >= colored_count(g, p, c)
    }
}

/// A candidate `w` is consistent with observing pattern `p` for guess `g`:
/// it agrees with the guess at every Hit position, disagrees at every
/// non-Hit position, and satisfies the multiplicity rule for every letter.
pub open spec fn keeps(g: Seq<u8>, p: Seq<Feedback>, w: Seq<u8>) -> bool {
    &&& w.len() == g.len()
    &&& forall|i: int| 0 <= i < g.len() && (#[trigger] p[i]) is Hit ==> w[i] == g[i]
    &&& forall|i: int| 0 <= i < g.len() && !((#[trigger] p[i]) is Hit) ==> w[i] != g[i]
    &&& forall|c: u8| #[trigger] letter_ok(g, p, w, c)
}

/// The views of a candidate list.
pub open spec fn word_views(cands: Seq<Vec<u8>>) -> Seq<Seq<u8>> {
    cands.map_values(|w: Vec<u8>| w@)
}

/// All words of the list share one length.
pub open spec fn uniform_lengths(ws: Seq<Seq<u8>>) -> bool {
    forall|i: int, j: int|
        0 <= i < ws.len() && 0 <= j < ws.len() ==> (#[trigger] ws[i]).len() == (
        #[trigger] ws[j]).len()
}

/// The subsequence of `ws` consistent with observing `p` for guess `g`.
pub open spec fn filtered(g: Seq<u8>, p: Seq<Feedback>, ws: Seq<Seq<u8>>) -> Seq<Seq<u8>> {
    ws.filter(|w: Seq<u8>| keeps(g, p, w))
}

/// Marks of a letter that does not occur in the guess count zero.
proof fn lemma_cnt_marked_zero(g: Seq<u8>, p: Seq<Feedback>, c: u8, k: int, absent: bool)
    requires
        forall|j: int| 0 <= j < k ==> g[j] != c,
    ensures
        cnt_marked(g, p, c, k, absent) == 0,
    decreases k,
{
    if k > 0 {
        lemma_cnt_marked_zero(g, p, c, k - 1, absent);
    }
}

/// A prefix never holds more marks than positions.
proof fn lemma_cnt_marked_le(g: Seq<u8>, p: Seq<Feedback>, c: u8, k: int, absent: bool)
    requires
        k >= 0,
    ensures
        cnt_marked(g, p, c, k, absent) <= k,
    decreases k,
{
    if k > 0 {
        lemma_cnt_marked_le(g, p, c, k - 1, absent);
    }
}

/// Counts the occurrences of the byte `c` in `s`.
pub fn count_byte(s: &Vec<u8>, c: u8) -> (n: usize)
    ensures
        n == count_letter(s@, c),
{
    let mut n: usize = 0;
    let mut i: usize = 0;
    while i < s.len()
        invariant
            i <= s@.len(),
            n == cnt_letter(s@, c, i as int),
        decreases s@.len() - i,
    {
        if s[i] == c {
            proof {
                lemma_cnt_letter_le(s@, c, i as int);
            }
            n = n + 1;
        }
        i += 1;
    }
    n
}

/// Counts the positions whose guess letter is `c` and whose mark is Absent
/// (when `absent`) or Hit/Present (when `!absent`).
fn count_marked(g: &Vec<u8>, p: &Vec<Feedback>, c: u8, absent: bool) -> (n: usize)
    requires
        p@.len() == g@.len(),
    ensures
        n == cnt_marked(g@, p@, c, g@.len() as int, absent),
{
    let mut n: usize = 0;
    let mut i: usize = 0;
    while i < g.len()
        invariant
            p@.len() == g@.len(),
            i <= g@.len(),
            n == cnt_marked(g@, p@, c, i as int, absent),
        decreases g@.len() - i,
    {
        let is_abs = p[i] == Feedback::Absent;
        if g[i] == c && is_abs == absent {
            proof {
                lemma_cnt_marked_le(g@, p@, c, i as int, absent);
            }
            n = n + 1;
        }
        i += 1;
    }
    n
}

/// Decides whether the candidate `w` stays consistent with the pattern `p`
/// observed for the guess `g`.
pub fn word_matches(guess: &Vec<u8>, pattern: &Vec<Feedback>, w: &Vec<u8>) -> (r: bool)
    requires
        pattern@.len() == guess@.len(),
    ensures
        r == keeps(guess@, pattern@, w@),
{
    if w.len() != guess.len() {
        return false;
    }
    // the two positional rules
    let mut i: usize = 0;
    while i < guess.len()
        invariant
            pattern@.len() == guess@.len(),
            w@.len() == guess@.len(),
            i <= guess@.len(),
            forall|k: int| 0 <= k < i && (#[trigger] pattern@[k]) is Hit ==> w@[k] == guess@[k],
            forall|k: int| 0 <= k < i && !((#[trigger] pattern@[k]) is Hit) ==> w@[k] != guess@[k],
        decreases guess@.len() - i,
    {
        if pattern[i] == Feedback::Hit {
            if w[i] != guess[i] {
                return false;
            }
        } else {
            if w[i] == guess[i] {
                return false;
            }
        }
        i += 1;
    }
    // the multiplicity rule, once per position's letter
    let mut i: usize = 0;
    while i < guess.len()
        invariant
            pattern@.len() == guess@.len(),
            w@.len() == guess@.len(),
            i <= guess@.len(),
            forall|k: int| 0 <= k < guess@.len() && (#[trigger] pattern@[k]) is Hit ==> w@[k]
                == guess@[k],
            forall|k: int| 0 <= k < guess@.len() && !((#[trigger] pattern@[k]) is Hit) ==> w@[k]
                != guess@[k],
            forall|k: int| 0 <= k < i ==> letter_ok(guess@, pattern@, w@, #[trigger] guess@[k]),
        decreases guess@.len() - i,
    {
        let c = guess[i];
        let colored = count_marked(guess, pattern, c, false);
        let gray = count_marked(guess, pattern, c, true);
        let cw = count_byte(w, c);
        if gray > 0 {
            if cw != colored {
                proof {
                    assert(!letter_ok(guess@, pattern@, w@, c));
                }
                return false;
            }
        } else {
            if cw < colored {
                proof {
                    assert(!letter_ok(guess@, pattern@, w@, c));
                }
                return false;
            }
        }
        i += 1;
    }
    proof {
        assert forall|c: u8| #[trigger] letter_ok(guess@, pattern@, w@, c) by {
            if exists|k: int| 0 <= k < guess@.len() && guess@[k] == c {
                let k = choose|k: int| 0 <= k < guess@.len() && guess@[k] == c;
                assert(letter_ok(guess@, pattern@, w@, guess@[k]));
            } else {
                assert(forall|j: int| 0 <= j < guess@.len() ==> guess@[j] != c);
                lemma_cnt_marked_zero(guess@, pattern@, c, guess@.len() as int, false);
                lemma_cnt_marked_zero(guess@, pattern@, c, guess@.len() as int, true);
            }
        }
    }
    true
}

/// Compares two words for equality.
pub fn words_equal(a: &Vec<u8>, b: &Vec<u8>) -> (r: bool)
    ensures
        r == (a@ == b@),
{
    if a.len() != b.len() {
        return false;
    }
    let mut i: usize = 0;
    while i < a.len()
        invariant
            a@.len() == b@.len(),
            i <= a@.len(),
            forall|k: int| 0 <= k < i ==> a@[k] == b@[k],
        decreases a@.len() - i,
    {
        if a[i] != b[i] {
            return false;
        }
        i += 1;
    }
    proof {
        assert(a@ =~= b@);
    }
    true
}

/// An owned copy of a word.
pub(crate) fn copy_word(w: &Vec<u8>) -> (r: Vec<u8>)
    ensures
        r@ == w@,
{
    let mut r: Vec<u8> = Vec::new();
    let mut i: usize = 0;
    while i < w.len()
        invariant
            i <= w@.len(),
            r@ == w@.take(i as int),
        decreases w@.len() - i,
    {
        r.push(w[i]);
        proof {
            assert(r@ =~= w@.take(i + 1));
        }
        i += 1;
    }
    proof {
        assert(w@.take(w@.len() as int) =~= w@);
    }
    r
}

/// The constraint filter. Keeps exactly the candidates consistent with
/// observing `pattern` for `guess`; rejects a pattern whose length does not
/// match the guess with `LengthMismatch`. The result never grows.
pub fn filter_candidates(guess: &Vec<u8>, pattern: &Vec<Feedback>, candidates: &Vec<Vec<u8>>) -> (r:
    Result<Vec<Vec<u8>>, WordleError>)
    ensures
        match r {
            Ok(out) => pattern@.len() == guess@.len() && word_views(out@) == filtered(
                guess@,
                pattern@,
                word_views(candidates@),
            ) && out@.len() <= candidates@.len(),
            Err(e) => pattern@.len() != guess@.len() && e == WordleError::LengthMismatch,
        },
{
    if pattern.len() != guess.len() {
        return Err(WordleError::LengthMismatch);
    }
    let ghost ws = word_views(candidates@);
    let mut out: Vec<Vec<u8>> = Vec::new();
    proof {
        reveal(Seq::filter);
        assert(word_views(out@) =~= filtered(guess@, pattern@, ws.take(0)));
    }
    let mut i: usize = 0;
    while i < candidates.len()
        invariant
            pattern@.len() == guess@.len(),
            i <= candidates@.len(),
            out@.len() <= i,
            ws == word_views(candidates@),
            word_views(out@) == filtered(guess@, pattern@, ws.take(i as int)),
        decreases candidates@.len() - i,
    {
        let keep = word_matches(guess, pattern, &candidates[i]);
        proof {
            reveal(Seq::filter);
            assert(ws.take(i + 1).drop_last() =~= ws.take(i as int));
            assert(ws.take(i + 1).last() == candidates@[i as int]@);
        }
        if keep {
            out.push(copy_word(&candidates[i]));
            proof {
                assert(word_views(out@) =~= filtered(guess@, pattern@, ws.take(i as int)).push(
                    candidates@[i as int]@,
                ));
            }
        } else {
            proof {
                assert(filtered(guess@, pattern@, ws.take(i + 1)) == filtered(
                    guess@,
                    pattern@,
                    ws.take(i as int),
                ));
            }
        }
        i += 1;
    }
    proof {
        assert(ws.take(candidates@.len() as int) =~= ws);
    }
    Ok(out)
}

} // verus!
