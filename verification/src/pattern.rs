//! The feedback oracle: given a guess and a hypothetical target word, compute
//! the positional three-way (Hit / Present / Absent) feedback pattern the game
//! would produce, with the two-pass multiplicity rule for repeated letters.

use vstd::prelude::*;
use vstd::pervasive::VecAdditionalExecFns;
use crate::WordleError;

verus! {

/// One position's feedback symbol.
#[derive(Clone, Copy, Debug, PartialEq, Eq, Structural)]
pub enum Feedback {
    /// The guessed letter is correct and in the correct position.
    Hit,
    /// The guessed letter occurs in the target, but at a different position.
    Present,
    /// No further occurrence of the guessed letter remains in the target once
    /// its Hit and Present instances are accounted for.
    Absent,
}

/// Number of occurrences of the letter `c` among the first `k` positions of `s`.
pub open spec fn cnt_letter(s: Seq<u8>, c: u8, k: int) -> nat
    decreases k,
{
    if k <= 0 {
        0
    } else {
        cnt_letter(s, c, k - 1) + if s[k - 1] == c {
            1nat
        } else {
            0nat
        }
    }
}

/// Number of occurrences of the letter `c` in the whole word `s`.
pub open spec fn count_letter(s: Seq<u8>, c: u8) -> nat {
    cnt_letter(s, c, s.len() as int)
}

/// Positions among the first `k` where guess and target agree and both hold `c`.
pub open spec fn cnt_hits(g: Seq<u8>, t: Seq<u8>, c: u8, k: int) -> nat
    decreases k,
{
    if k <= 0 {
        0
    } else {
        cnt_hits(g, t, c, k - 1) + if g[k - 1] == c && t[k - 1] == c {
            1nat
        } else {
            0nat
        }
    }
}

/// Positions among the first `k` where the guess holds `c` and does not match
/// the target at that position.
pub open spec fn cnt_nonhit(g: Seq<u8>, t: Seq<u8>, c: u8, k: int) -> nat
    decreases k,
{
    if k <= 0 {
        0
    } else {
        cnt_nonhit(g, t, c, k - 1) + if g[k - 1] == c && g[k - 1] != t[k - 1] {
            1nat
        } else {
            0nat
        }
    }
}

/// Occurrences of `c` in the target that are not consumed by exact (Hit)
/// matches of the guess; the multiplicity left over for Present marks.
pub open spec fn avail(g: Seq<u8>, t: Seq<u8>, c: u8) -> int {
    count_letter(t, c) - cnt_hits(g, t, c, g.len() as int)
}

/// The symbol the oracle produces at position `i`: Hit on an exact match;
/// otherwise Present while the earlier non-hit copies of the same letter have
/// not yet used up the target's unmatched multiplicity, and Absent afterwards.
pub open spec fn pattern_at(g: Seq<u8>, t: Seq<u8>, i: int) -> Feedback {
    if g[i] == t[i] {
        Feedback::Hit
    } else if cnt_nonhit(g, t, g[i], i) < avail(g, t, g[i]) {
        Feedback::Present
    } else {
        Feedback::Absent
    }
}

/// The full feedback pattern the game produces for guess `g` against target `t`.
pub open spec fn spec_pattern(g: Seq<u8>, t: Seq<u8>) -> Seq<Feedback> {
    Seq::new(g.len(), |i: int| pattern_at(g, t, i))
}

/// A prefix never holds more copies of a letter than positions.
pub proof fn lemma_cnt_letter_le(s: Seq<u8>, c: u8, k: int)
    requires
        k >= 0,
    ensures
        cnt_letter(s, c, k) <= k,
    decreases k,
{
    if k > 0 {
        lemma_cnt_letter_le(s, c, k - 1);
    }
}

/// Letter counts only grow with the prefix.
pub proof fn lemma_cnt_letter_mono(s: Seq<u8>, c: u8, k1: int, k2: int)
    requires
        k1 <= k2,
    ensures
        cnt_letter(s, c, k1) <= cnt_letter(s, c, k2),
    decreases k2 - k1,
{
    if k1 < k2 {
        lemma_cnt_letter_mono(s, c, k1, k2 - 1);
    }
}

/// Every exact match of `c` stands at a target position holding `c`, so the
/// hit count never exceeds the target's letter count.
pub proof fn lemma_hits_le_letters(g: Seq<u8>, t: Seq<u8>, c: u8, k: int)
    ensures
        cnt_hits(g, t, c, k) <= cnt_letter(t, c, k),
    decreases k,
{
    if k > 0 {
        lemma_hits_le_letters(g, t, c, k - 1);
    }
}

/// The target's unmatched multiplicity is never negative.
pub proof fn lemma_avail_nonneg(g: Seq<u8>, t: Seq<u8>, c: u8)
    requires
        g.len() == t.len(),
    ensures
        avail(g, t, c) >= 0,
{
    lemma_hits_le_letters(g, t, c, g.len() as int);
}

/// The two-pass oracle. Pass one marks Hits and removes them from the
/// target's multiplicity table; pass two marks Present while the table still
/// holds the guessed letter, and Absent otherwise.
pub(crate) fn oracle_pattern(guess: &Vec<u8>, target: &Vec<u8>) -> (r: Vec<Feedback>)
    requires
        guess@.len() == target@.len(),
    ensures
        r@.len() == guess@.len(),
        forall|k: int| 0 <= k < guess@.len() ==> r@[k] == pattern_at(guess@, target@, k),
{
    let n = guess.len();
    // multiplicity table of the target's letters, indexed by byte value
    let mut counts: Vec<usize> = Vec::new();
    let mut ci: usize = 0;
    while ci < 256
        invariant
            counts@.len() == ci,
            ci <= 256,
            forall|c: int| 0 <= c < ci ==> counts@[c] == 0,
        decreases 256 - ci,
    {
        counts.push(0);
        ci += 1;
    }

    let mut j: usize = 0;
    while j < n
        invariant
            counts@.len() == 256,
            n == target@.len(),
            j <= n,
            forall|c: int| 0 <= c < 256 ==> counts@[c] == cnt_letter(target@, c as u8, j as int),
        decreases n - j,
    {
        let tc = target[j];
        let cur = counts[tc as usize];
        proof {
            lemma_cnt_letter_le(target@, tc, j as int);
        }
        counts.set(tc as usize, cur + 1);
        j += 1;
    }

    // pass one: mark the exact matches
    let mut r: Vec<Feedback> = Vec::new();
    let mut i: usize = 0;
    while i < n
        invariant
            r@.len() == i,
            i <= n,
            n == guess@.len(),
            n == target@.len(),
            forall|k: int|
                0 <= k < i ==> r@[k] == (if guess@[k] == target@[k] {
                    Feedback::Hit
                } else {
                    Feedback::Absent
                }),
        decreases n - i,
    {
        if guess[i] == target[i] {
            r.push(Feedback::Hit);
        } else {
            r.push(Feedback::Absent);
        }
        i += 1;
    }

    // remove the Hit letters from the multiplicity table
    let mut i: usize = 0;
    while i < n
        invariant
            counts@.len() == 256,
            i <= n,
            n == guess@.len(),
            n == target@.len(),
            forall|c: int|
                0 <= c < 256 ==> counts@[c] == cnt_letter(target@, c as u8, n as int) - cnt_hits(
                    guess@,
                    target@,
                    c as u8,
                    i as int,
                ),
        decreases n - i,
    {
        if guess[i] == target[i] {
            let gc = guess[i];
            let cur = counts[gc as usize];
            proof {
                lemma_hits_le_letters(guess@, target@, gc, (i + 1) as int);
                lemma_cnt_letter_mono(target@, gc, (i + 1) as int, n as int);
            }
            counts.set(gc as usize, cur - 1);
        }
        i += 1;
    }

    proof {
        assert forall|c: u8| avail(guess@, target@, c) >= 0 by {
            lemma_avail_nonneg(guess@, target@, c);
        }
    }

    // pass two: mark Present while unmatched multiplicity remains
    let mut i: usize = 0;
    while i < n
        invariant
            counts@.len() == 256,
            i <= n,
            n == guess@.len(),
            n == target@.len(),
            r@.len() == n,
            forall|c: u8| avail(guess@, target@, c) >= 0,
            forall|c: int|
                0 <= c < 256 ==> counts@[c] == (if cnt_nonhit(guess@, target@, c as u8, i as int)
                    <= avail(guess@, target@, c as u8) {
                    avail(guess@, target@, c as u8) - cnt_nonhit(guess@, target@, c as u8, i as int)
                } else {
                    0
                }),
            forall|k: int| 0 <= k < i ==> r@[k] == pattern_at(guess@, target@, k),
            forall|k: int|
                i <= k < n ==> r@[k] == (if guess@[k] == target@[k] {
                    Feedback::Hit
                } else {
                    Feedback::Absent
                }),
        decreases n - i,
    {
        if guess[i] != target[i] {
            let gc = guess[i];
            let cur = counts[gc as usize];
            if cur > 0 {
                r.set(i, Feedback::Present);
                counts.set(gc as usize, cur - 1);
            }
        }
        i += 1;
    }
    r
}

/// The feedback oracle. Returns the pattern for `guess` against `target`, or
/// `LengthMismatch` when the two words differ in length.
pub fn compute_pattern(guess: &Vec<u8>, target: &Vec<u8>) -> (r: Result<
    Vec<Feedback>,
    WordleError,
>)
    ensures
        match r {
            Ok(p) => guess@.len() == target@.len() && p@ == spec_pattern(guess@, target@),
            Err(e) => guess@.len() != target@.len() && e == WordleError::LengthMismatch,
        },
{
    if guess.len() != target.len() {
        Err(WordleError::LengthMismatch)
    } else {
        let p = oracle_pattern(guess, target);
        proof {
            assert(p@ =~= spec_pattern(guess@, target@));
        }
        Ok(p)
    }
}

/// The byte the game's text encoding uses for each symbol:
/// `@` for Hit, `#` for Present, `?` for Absent.
pub open spec fn symbol_byte(f: Feedback) -> u8 {
    match f {
        Feedback::Hit => 64,
        Feedback::Present => 35,
        Feedback::Absent => 63,
    }
}

/// Encodes one feedback symbol as its display byte.
pub fn feedback_symbol(f: Feedback) -> (b: u8)
    ensures
        b == symbol_byte(f),
{
    match f {
        Feedback::Hit => 64,
        Feedback::Present => 35,
        Feedback::Absent => 63,
    }
}

/// True of the bytes that encode a feedback symbol.
pub open spec fn is_symbol_byte(b: u8) -> bool {
    b == 64 || b == 35 || b == 63
}

/// The symbol a valid feedback byte encodes.
pub open spec fn byte_symbol(b: u8) -> Feedback {
    if b == 64 {
        Feedback::Hit
    } else if b == 35 {
        Feedback::Present
    } else {
        Feedback::Absent
    }
}

/// Decodes an observed feedback string from the game's three-character
/// encoding; any byte outside the alphabet is rejected with `InvalidSymbol`.
pub fn parse_pattern(s: &Vec<u8>) -> (r: Result<Vec<Feedback>, WordleError>)
    ensures
        match r {
            Ok(p) => p@ == s@.map_values(|b: u8| byte_symbol(b)) && forall|i: int|
                0 <= i < s@.len() ==> is_symbol_byte(s@[i]),
            Err(e) => e == WordleError::InvalidSymbol && exists|i: int|
                0 <= i < s@.len() && !is_symbol_byte(s@[i]),
        },
{
    let mut p: Vec<Feedback> = Vec::new();
    let mut i: usize = 0;
    while i < s.len()
        invariant
            i <= s@.len(),
            p@.len() == i,
            forall|k: int| 0 <= k < i ==> is_symbol_byte(s@[k]),
            forall|k: int| 0 <= k < i ==> p@[k] == byte_symbol(s@[k]),
        decreases s@.len() - i,
    {
        let b = s[i];
        if b == 64 {
            p.push(Feedback::Hit);
        } else if b == 35 {
            p.push(Feedback::Present);
        } else if b == 63 {
            p.push(Feedback::Absent);
        } else {
            proof {
                assert(!is_symbol_byte(s@[i as int]));
            }
            return Err(WordleError::InvalidSymbol);
        }
        i += 1;
    }
    proof {
        assert(p@ =~= s@.map_values(|b: u8| byte_symbol(b)));
    }
    Ok(p)
}

/// The oracle in the game's three-character text encoding.
pub fn get_feedback_pattern(guess: &Vec<u8>, target: &Vec<u8>) -> (r: Vec<u8>)
    requires
        guess@.len() == target@.len(),
    ensures
        r@ == spec_pattern(guess@, target@).map_values(|f: Feedback| symbol_byte(f)),
{
    let p = oracle_pattern(guess, target);
    let mut r: Vec<u8> = Vec::new();
    let mut i: usize = 0;
    while i < p.len()
        invariant
            r@.len() == i,
            i <= p@.len(),
            p@.len() == guess@.len(),
            forall|k: int| 0 <= k < p@.len() ==> p@[k] == pattern_at(guess@, target@, k),
            forall|k: int| 0 <= k < i ==> r@[k] == symbol_byte(p@[k]),
        decreases p@.len() - i,
    {
        r.push(feedback_symbol(p[i]));
        i += 1;
    }
    proof {
        assert(r@ =~= spec_pattern(guess@, target@).map_values(|f: Feedback| symbol_byte(f)));
    }
    r
}

} // verus!
