//! The entropy ranker: scores every candidate word as a hypothetical next
//! guess by the entropy of the feedback-pattern distribution it would induce
//! over the candidate set, and selects the best under a deterministic
//! tie-break (the lexicographically smallest word among equal scores).

use vstd::prelude::*;
use crate::entropy::{calculate_entropy, entropy_score};
use crate::filter::{copy_word, uniform_lengths, word_views, words_equal};

verus! {

/// Whether the word `w` occurs in the list `ws`.
pub open spec fn in_set(w: Seq<u8>, ws: Seq<Seq<u8>>) -> bool {
    exists|j: int| 0 <= j < ws.len() && ws[j] == w
}

/// Lexicographic byte order on words; a proper prefix comes first.
pub open spec fn lex_le(a: Seq<u8>, b: Seq<u8>) -> bool
    decreases a.len(),
{
    if a.len() == 0 {
        true
    } else if b.len() == 0 {
        false
    } else if a[0] < b[0] {
        true
    } else if a[0] > b[0] {
        false
    } else {
        lex_le(a.skip(1), b.skip(1))
    }
}

/// Lexicographic order is reflexive.
pub proof fn lemma_lex_refl(a: Seq<u8>)
    ensures
        lex_le(a, a),
    decreases a.len(),
{
    if a.len() > 0 {
        lemma_lex_refl(a.skip(1));
    }
}

/// Lexicographic order is total.
pub proof fn lemma_lex_total(a: Seq<u8>, b: Seq<u8>)
    ensures
        lex_le(a, b) || lex_le(b, a),
    decreases a.len(),
{
    if a.len() != 0 && b.len() != 0 && a[0] == b[0] {
        lemma_lex_total(a.skip(1), b.skip(1));
    }
}

/// Lexicographic order is antisymmetric.
pub proof fn lemma_lex_antisymmetric(a: Seq<u8>, b: Seq<u8>)
    requires
        lex_le(a, b),
        lex_le(b, a),
    ensures
        a == b,
    decreases a.len(),
{
    if a.len() == 0 {
        assert(b.len() == 0);
        assert(a =~= b);
    } else {
        assert(a[0] == b[0]);
        lemma_lex_antisymmetric(a.skip(1), b.skip(1));
        assert forall|i: int| 0 <= i < a.len() implies a[i] == b[i] by {
            if i > 0 {
                assert(a.skip(1)[i - 1] == a[i]);
                assert(b.skip(1)[i - 1] == b[i]);
            }
        }
        assert(a =~= b);
    }
}

/// Lexicographic order is transitive.
pub proof fn lemma_lex_trans(a: Seq<u8>, b: Seq<u8>, c: Seq<u8>)
    requires
        lex_le(a, b),
        lex_le(b, c),
    ensures
        lex_le(a, c),
    decreases a.len(),
{
    if a.len() != 0 {
        assert(b.len() != 0);
        assert(c.len() != 0);
        if a[0] == b[0] && b[0] == c[0] {
            lemma_lex_trans(a.skip(1), b.skip(1), c.skip(1));
        }
    }
}

/// The suggestion owed after looking at the first `k` candidates: a
/// non-excluded candidate among them whose entropy score against the whole
/// set is maximal, lexicographically least among those sharing that score.
pub open spec fn best_of_prefix(
    cands: Seq<Seq<u8>>,
    excl: Seq<Seq<u8>>,
    k: int,
    w: Seq<u8>,
    s: int,
) -> bool {
    &&& exists|j: int| 0 <= j < k && cands[j] == w
    &&& !in_set(w, excl)
    &&& s == entropy_score(w, cands)
    &&& forall|j: int|
        0 <= j < k && !in_set(#[trigger] cands[j], excl) ==> entropy_score(cands[j], cands) <= s
    &&& forall|j: int|
        0 <= j < k && !in_set(#[trigger] cands[j], excl) && entropy_score(cands[j], cands) == s
            ==> lex_le(w, cands[j])
}

/// The suggestion the ranker owes for the whole candidate set.
pub open spec fn is_best(cands: Seq<Seq<u8>>, excl: Seq<Seq<u8>>, w: Seq<u8>, s: int) -> bool {
    best_of_prefix(cands, excl, cands.len() as int, w, s)
}

/// The ranking contract pins its output: any two suggestions that both
/// satisfy it are the same word with the same score, so repeated calls on
/// the same inputs return identical output, tie-break winner included.
pub proof fn lemma_rank_deterministic(
    cands: Seq<Seq<u8>>,
    excl: Seq<Seq<u8>>,
    w1: Seq<u8>,
    s1: int,
    w2: Seq<u8>,
    s2: int,
)
    requires
        is_best(cands, excl, w1, s1),
        is_best(cands, excl, w2, s2),
    ensures
        w1 == w2,
        s1 == s2,
{
    let j1 = choose|j: int| 0 <= j < cands.len() && cands[j] == w1;
    let j2 = choose|j: int| 0 <= j < cands.len() && cands[j] == w2;
    assert(entropy_score(cands[j1], cands) <= s2);
    assert(entropy_score(cands[j2], cands) <= s1);
    assert(s1 == s2);
    assert(lex_le(w1, cands[j2]));
    assert(lex_le(w2, cands[j1]));
    lemma_lex_antisymmetric(w1, w2);
}

/// With equal prefixes of length `i`, the order is decided past them.
proof fn lemma_lex_skip(a: Seq<u8>, b: Seq<u8>, i: int)
    requires
        0 <= i <= a.len(),
        i <= b.len(),
        forall|k: int| 0 <= k < i ==> a[k] == b[k],
    ensures
        lex_le(a, b) == lex_le(a.skip(i), b.skip(i)),
    decreases i,
{
    if i == 0 {
        assert(a.skip(0) =~= a);
        assert(b.skip(0) =~= b);
    } else {
        lemma_lex_skip(a.skip(1), b.skip(1), i - 1);
        assert(a.skip(1).skip(i - 1) =~= a.skip(i));
        assert(b.skip(1).skip(i - 1) =~= b.skip(i));
    }
}

/// Strict lexicographic comparison of two words.
pub fn lex_less(a: &Vec<u8>, b: &Vec<u8>) -> (r: bool)
    ensures
        r == (lex_le(a@, b@) && a@ != b@),
{
    let n = if a.len() < b.len() {
        a.len()
    } else {
        b.len()
    };
    let mut i: usize = 0;
    while i < n
        invariant
            i <= n,
            n <= a@.len(),
            n <= b@.len(),
            n == a@.len() || n == b@.len(),
            forall|k: int| 0 <= k < i ==> a@[k] == b@[k],
        decreases n - i,
    {
        if a[i] < b[i] {
            proof {
                lemma_lex_skip(a@, b@, i as int);
                assert(a@.skip(i as int)[0] == a@[i as int]);
                assert(b@.skip(i as int)[0] == b@[i as int]);
            }
            return true;
        }
        if a[i] > b[i] {
            proof {
                lemma_lex_skip(a@, b@, i as int);
                assert(a@.skip(i as int)[0] == a@[i as int]);
                assert(b@.skip(i as int)[0] == b@[i as int]);
            }
            return false;
        }
        i += 1;
    }
    proof {
        lemma_lex_skip(a@, b@, n as int);
    }
    if a.len() < b.len() {
        proof {
            assert(a@.skip(n as int).len() == 0);
        }
        return true;
    }
    if a.len() == b.len() {
        proof {
            assert(a@ =~= b@);
            lemma_lex_refl(a@);
        }
        return false;
    }
    proof {
        assert(b@.skip(n as int).len() == 0);
        assert(a@.skip(n as int).len() > 0);
    }
    false
}

/// Whether the word occurs in the list.
pub fn contains_word(ws: &Vec<Vec<u8>>, w: &Vec<u8>) -> (r: bool)
    ensures
        r == in_set(w@, word_views(ws@)),
{
    let mut i: usize = 0;
    while i < ws.len()
        invariant
            i <= ws@.len(),
            forall|j: int| 0 <= j < i ==> word_views(ws@)[j] != w@,
        decreases ws@.len() - i,
    {
        if words_equal(&ws[i], w) {
            proof {
                assert(word_views(ws@)[i as int] == w@);
            }
            return true;
        }
        i += 1;
    }
    false
}

/// The entropy ranker. Scores every candidate not in `excluded` by the
/// entropy of the pattern distribution it induces over `candidates`, and
/// returns the best word with its score; the tie-break prefers the
/// lexicographically smaller word. Returns nothing exactly when every
/// candidate is excluded (in particular when there are no candidates); a
/// lone unexcluded candidate is always returned.
pub fn rank(candidates: &Vec<Vec<u8>>, excluded: &Vec<Vec<u8>>) -> (r: Option<(Vec<u8>, u64)>)
    requires
        uniform_lengths(word_views(candidates@)),
        candidates@.len() <= 0x10_0000,
    ensures
        match r {
            Some(ws) => is_best(word_views(candidates@), word_views(excluded@), ws.0@, ws.1 as int),
            None => forall|i: int|
                0 <= i < candidates@.len() ==> in_set(
                    (#[trigger] candidates@[i])@,
                    word_views(excluded@),
                ),
        },
        candidates@.len() == 1 && excluded@.len() == 0 ==> r is Some && (r->0).0@ == candidates@[0]@,
{
    let ghost cands = word_views(candidates@);
    let ghost excl = word_views(excluded@);
    proof {
        assert forall|a: int, b: int|
            0 <= a < candidates@.len() && 0 <= b < candidates@.len() implies (
        #[trigger] candidates@[a])@.len() == (#[trigger] candidates@[b])@.len() by {
            assert(cands[a] == candidates@[a]@);
            assert(cands[b] == candidates@[b]@);
        }
    }
    let mut best: Option<(Vec<u8>, u64)> = None;
    let mut i: usize = 0;
    while i < candidates.len()
        invariant
            forall|a: int, b: int|
                0 <= a < candidates@.len() && 0 <= b < candidates@.len() ==> (
                #[trigger] candidates@[a])@.len() == (#[trigger] candidates@[b])@.len(),
            uniform_lengths(word_views(candidates@)),
            candidates@.len() <= 0x10_0000,
            cands == word_views(candidates@),
            excl == word_views(excluded@),
            i <= candidates@.len(),
            best is None ==> forall|j: int| 0 <= j < i ==> in_set(#[trigger] cands[j], excl),
            best matches Some(ws) ==> best_of_prefix(cands, excl, i as int, ws.0@, ws.1 as int),
        decreases candidates@.len() - i,
    {
        let excluded_here = contains_word(excluded, &candidates[i]);
        if !excluded_here {
            let e = calculate_entropy(&candidates[i], candidates);
            let ghost prev = best;
            let mut replace = false;
            match &best {
                None => {
                    replace = true;
                },
                Some(ws) => {
                    if e > ws.1 {
                        replace = true;
                    } else if e == ws.1 && lex_less(&candidates[i], &ws.0) {
                        replace = true;
                    }
                },
            }
            if replace {
                best = Some((copy_word(&candidates[i]), e));
            }
            proof {
                lemma_lex_refl(cands[i as int]);
                let si = entropy_score(cands[i as int], cands);
                if prev is Some {
                    let w0 = (prev->0).0@;
                    let s0 = (prev->0).1 as int;
                    if replace {
                        assert forall|j: int|
                            0 <= j < i + 1 && !in_set(#[trigger] cands[j], excl) && entropy_score(
                                cands[j],
                                cands,
                            ) == si implies lex_le(cands[i as int], cands[j]) by {
                            if j < i {
                                if si == s0 {
                                    lemma_lex_trans(cands[i as int], w0, cands[j]);
                                }
                            }
                        }
                    } else {
                        if si == s0 {
                            lemma_lex_total(w0, cands[i as int]);
                        }
                    }
                }
            }
        } else {
            proof {
                assert(in_set(cands[i as int], excl));
            }
        }
        i += 1;
    }
    proof {
        assert forall|j: int| 0 <= j < candidates@.len() implies cands[j] == (
        #[trigger] candidates@[j])@ by {}
        if best is Some {
            assert(best_of_prefix(cands, excl, cands.len() as int, (best->0).0@, (best->0).1 as int));
        }
        if candidates@.len() == 1 && excluded@.len() == 0 && best is None {
            assert(in_set(cands[0], excl));
            assert(false);
        }
    }
    best
}

} // verus!
