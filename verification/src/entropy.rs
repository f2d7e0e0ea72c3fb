//! Entropy scoring for candidate guesses. Shannon entropy is irrational in
//! general, so the score is kept in exact fixed-point form: base-2 logarithms
//! carry sixteen fractional bits, computed by the classic squaring method,
//! and a candidate set of size `n` scores `sum over buckets of
//! c * (log2(n) - log2(c))`, which is `n * 2^16` times the entropy in bits.
//! Integer scores make every comparison and tie exact and reproducible.

use vstd::prelude::*;
use vstd::arithmetic::power2::{
    pow2, lemma2_to64, lemma_pow2_adds, lemma_pow2_strictly_increases,
};
use vstd::arithmetic::mul::{lemma_mul_inequality, lemma_mul_strict_inequality};
use vstd::arithmetic::div_mod::lemma_div_is_ordered;
use crate::pattern::{Feedback, spec_pattern};
use crate::filter::word_views;

verus! {

/// The number of fractional bits carried by a fixed-point logarithm.
pub open spec fn log_scale() -> int {
    65536
}

/// The integer part of the base-2 logarithm of `x`.
pub open spec fn sfl2(x: int) -> nat
    decreases x,
{
    if x < 2 {
        0
    } else {
        1 + sfl2(x / 2)
    }
}

/// One squaring step of the fraction extraction: the state after `n` steps is
/// the pair of the fraction bits gathered so far and the running mantissa,
/// held in `[2^30, 2^31)`.
pub open spec fn frac_rec(y: int, n: nat) -> (int, int)
    decreases n,
{
    if n == 0 {
        (0, y)
    } else {
        let prev = frac_rec(y, (n - 1) as nat);
        let ys = (prev.1 * prev.1) / 0x4000_0000;
        if ys >= 0x8000_0000 {
            (2 * prev.0 + 1, ys / 2)
        } else {
            (2 * prev.0, ys)
        }
    }
}

/// `x` scaled so that its leading bit sits at position 30.
pub open spec fn norm30(x: int) -> int {
    x * pow2((30 - sfl2(x)) as nat)
}

/// The fixed-point base-2 logarithm of `x`: the integer part in the high
/// bits, sixteen fraction bits from the squaring method below it.
pub open spec fn spec_log2(x: int) -> int {
    sfl2(x) * log_scale() + frac_rec(norm30(x), 16).0
}

/// `sfl2` is the floor of the base-2 logarithm.
pub proof fn lemma_sfl2_bounds(x: int)
    requires
        x >= 1,
    ensures
        pow2(sfl2(x)) <= x < pow2(sfl2(x) + 1),
    decreases x,
{
    if x < 2 {
        lemma2_to64();
    } else {
        lemma_sfl2_bounds(x / 2);
        lemma_pow2_adds(sfl2(x / 2), 1);
        lemma_pow2_adds(sfl2(x / 2) + 1, 1);
        lemma2_to64();
    }
}

/// A value no greater than `2^b` has integer log at most `b`.
pub proof fn lemma_sfl2_le(x: int, b: nat)
    requires
        1 <= x <= pow2(b),
    ensures
        sfl2(x) <= b,
{
    lemma_sfl2_bounds(x);
    if sfl2(x) > b {
        lemma_pow2_strictly_increases(b, sfl2(x));
    }
}

/// The integer log never shrinks as its argument grows.
pub proof fn lemma_sfl2_mono(a: int, b: int)
    requires
        1 <= a <= b,
    ensures
        sfl2(a) <= sfl2(b),
{
    lemma_sfl2_bounds(a);
    lemma_sfl2_bounds(b);
    if sfl2(a) > sfl2(b) {
        lemma_pow2_strictly_increases(sfl2(b) + 1, sfl2(a));
    }
}

/// The squaring steps keep the mantissa normalized and gather one fraction
/// bit per step.
pub proof fn lemma_frac_range(y: int, n: nat)
    requires
        0x4000_0000 <= y < 0x8000_0000,
    ensures
        0x4000_0000 <= frac_rec(y, n).1 < 0x8000_0000,
        0 <= frac_rec(y, n).0 < pow2(n),
    decreases n,
{
    lemma2_to64();
    if n == 0 {
    } else {
        lemma_frac_range(y, (n - 1) as nat);
        let prev = frac_rec(y, (n - 1) as nat);
        let yy = prev.1;
        assert(yy * yy >= 0x4000_0000 * 0x4000_0000) by (nonlinear_arith)
            requires
                yy >= 0x4000_0000,
        ;
        assert(yy * yy < 0x8000_0000 * 0x8000_0000) by (nonlinear_arith)
            requires
                0 <= yy < 0x8000_0000,
        ;
        lemma_div_is_ordered((0x4000_0000 * 0x4000_0000) as int, yy * yy, 0x4000_0000);
        lemma_div_is_ordered(yy * yy, 0x8000_0000 * 0x8000_0000 - 1, 0x4000_0000);
        lemma_pow2_adds((n - 1) as nat, 1);
    }
}

/// A mantissa of exactly `2^30` is a fixed point of the squaring step, so
/// every fraction bit of an exact power of two is zero.
pub proof fn lemma_frac_fixpoint(n: nat)
    ensures
        frac_rec(0x4000_0000, n) == (0int, 0x4000_0000int),
    decreases n,
{
    if n > 0 {
        lemma_frac_fixpoint((n - 1) as nat);
    }
}

/// The two smallest logarithms, exactly: `log2(1) = 0` and `log2(2) = 1`.
pub proof fn lemma_log2_values()
    ensures
        spec_log2(1) == 0,
        spec_log2(2) == log_scale(),
{
    lemma2_to64();
    assert(sfl2(1) == 0);
    assert(sfl2(2) == 1 + sfl2(1));
    assert(norm30(1) == 1 * pow2(30));
    assert(norm30(2) == 2 * pow2(29));
    lemma_frac_fixpoint(16);
}

/// Fraction extraction is monotone: a smaller mantissa never yields larger
/// fraction bits (lexicographically over the pair of bits and mantissa).
pub proof fn lemma_frac_mono(ya: int, yb: int, n: nat)
    requires
        0x4000_0000 <= ya <= yb < 0x8000_0000,
    ensures
        frac_rec(ya, n).0 < frac_rec(yb, n).0 || (frac_rec(ya, n).0 == frac_rec(yb, n).0
            && frac_rec(ya, n).1 <= frac_rec(yb, n).1),
    decreases n,
{
    if n > 0 {
        lemma_frac_mono(ya, yb, (n - 1) as nat);
        lemma_frac_range(ya, (n - 1) as nat);
        lemma_frac_range(yb, (n - 1) as nat);
        let pa = frac_rec(ya, (n - 1) as nat);
        let pb = frac_rec(yb, (n - 1) as nat);
        if pa.0 == pb.0 {
            assert(pa.1 * pa.1 <= pb.1 * pb.1) by (nonlinear_arith)
                requires
                    0 <= pa.1 <= pb.1,
            ;
            lemma_div_is_ordered(pa.1 * pa.1, pb.1 * pb.1, 0x4000_0000);
            lemma_div_is_ordered((pa.1 * pa.1) / 0x4000_0000, (pb.1 * pb.1) / 0x4000_0000, 2);
        }
    }
}

/// The fixed-point logarithm is monotone on `[1, 2^30]`.
pub proof fn lemma_log2_mono(a: int, b: int)
    requires
        1 <= a <= b,
        b <= 0x4000_0000,
    ensures
        0 <= spec_log2(a) <= spec_log2(b),
        spec_log2(b) < 0x20_0000,
{
    lemma2_to64();
    lemma_sfl2_mono(a, b);
    lemma_sfl2_le(a, 30);
    lemma_sfl2_le(b, 30);
    lemma_sfl2_bounds(a);
    lemma_sfl2_bounds(b);
    let sa = sfl2(a);
    let sb = sfl2(b);
    assert(0x4000_0000 <= norm30(a) < 0x8000_0000) by {
        lemma_norm30_range(a);
    }
    assert(0x4000_0000 <= norm30(b) < 0x8000_0000) by {
        lemma_norm30_range(b);
    }
    lemma_frac_range(norm30(a), 16);
    lemma_frac_range(norm30(b), 16);
    if sa == sb {
        assert(norm30(a) <= norm30(b)) by {
            lemma_mul_inequality(a, b, pow2((30 - sa) as nat) as int);
        }
        lemma_frac_mono(norm30(a), norm30(b), 16);
    } else {
        // sa < sb: even a full fraction cannot bridge one whole integer bit
        assert(spec_log2(a) < (sa + 1) * log_scale());
        assert((sa + 1) * log_scale() <= sb * log_scale()) by (nonlinear_arith)
            requires
                sa + 1 <= sb,
        ;
    }
    assert(spec_log2(b) <= 30 * log_scale() + 0xffff);
}

/// The normalized mantissa of any `x` in `[1, 2^30]` lies in `[2^30, 2^31)`.
pub proof fn lemma_norm30_range(x: int)
    requires
        1 <= x <= 0x4000_0000,
    ensures
        0x4000_0000 <= norm30(x) < 0x8000_0000,
{
    lemma2_to64();
    lemma_sfl2_le(x, 30);
    lemma_sfl2_bounds(x);
    let s = sfl2(x);
    lemma_pow2_adds(s, (30 - s) as nat);
    lemma_pow2_adds((s + 1) as nat, (30 - s) as nat);
    assert(pow2(s) * pow2((30 - s) as nat) <= x * pow2((30 - s) as nat)) by {
        lemma_mul_inequality(pow2(s) as int, x, pow2((30 - s) as nat) as int);
    }
    assert(x * pow2((30 - s) as nat) < pow2((s + 1) as nat) * pow2((30 - s) as nat)) by {
        vstd::arithmetic::power2::lemma_pow2_pos((30 - s) as nat);
        lemma_mul_strict_inequality(x, pow2((s + 1) as nat) as int, pow2((30 - s) as nat) as int);
    }
    assert(pow2((s + 1) as nat) * pow2((30 - s) as nat) == pow2(31));
}

/// The fixed-point base-2 logarithm, sixteen fraction bits, exact on powers
/// of two and monotone throughout its domain.
pub fn log2_fixed(x: u64) -> (r: u64)
    requires
        1 <= x <= 0x4000_0000,
    ensures
        r == spec_log2(x as int),
        r < 0x20_0000,
{
    proof {
        lemma2_to64();
    }
    // integer part
    let mut k: u64 = 0;
    let mut v: u64 = x;
    proof {
        lemma_sfl2_le(x as int, 30);
    }
    while v >= 2
        invariant
            1 <= v <= x,
            sfl2(x as int) == k + sfl2(v as int),
            sfl2(x as int) <= 30,
            k <= 30,
            x <= 0x4000_0000,
        decreases v,
    {
        proof {
            assert(sfl2(v as int) == 1 + sfl2(v as int / 2));
            assert(sfl2(v as int / 2) >= 0);
        }
        v = v / 2;
        k = k + 1;
    }
    proof {
        assert(sfl2(v as int) == 0);
        assert(k == sfl2(x as int));
    }
    // normalize the mantissa into [2^30, 2^31)
    let shift = 30 - k;
    let mut p: u64 = 1;
    let mut s: u64 = 0;
    while s < shift
        invariant
            s <= shift <= 30,
            p == pow2(s as nat),
            p <= 0x4000_0000,
        decreases shift - s,
    {
        proof {
            lemma2_to64();
            lemma_pow2_adds(s as nat, 1);
            if s + 1 < 30 {
                lemma_pow2_strictly_increases((s + 1) as nat, 30);
            }
        }
        p = p * 2;
        s = s + 1;
    }
    proof {
        lemma_norm30_range(x as int);
        assert(p == pow2((30 - sfl2(x as int)) as nat));
        assert(x as int * p as int == norm30(x as int));
    }
    let y0 = x * p;
    // gather sixteen fraction bits by repeated squaring
    let mut y: u64 = y0;
    let mut f: u64 = 0;
    let mut it: u64 = 0;
    while it < 16
        invariant
            it <= 16,
            0x4000_0000 <= y < 0x8000_0000,
            f < pow2(it as nat),
            y0 as int == norm30(x as int),
            (f as int, y as int) == frac_rec(y0 as int, it as nat),
        decreases 16 - it,
    {
        proof {
            lemma2_to64();
            assert(y * y < 0x8000_0000u64 * 0x8000_0000u64) by (nonlinear_arith)
                requires
                    y < 0x8000_0000u64,
            ;
            assert(y * y >= 0x4000_0000u64 * 0x4000_0000u64) by (nonlinear_arith)
                requires
                    y >= 0x4000_0000u64,
            ;
            lemma_div_is_ordered((0x4000_0000 * 0x4000_0000) as int, y as int * y as int, 0x4000_0000);
            lemma_div_is_ordered(y as int * y as int, 0x8000_0000 * 0x8000_0000 - 1, 0x4000_0000);
            if it < 15 {
                lemma_pow2_strictly_increases((it + 1) as nat, 16);
            }
            lemma_pow2_adds(it as nat, 1);
        }
        let ys = (y * y) / 0x4000_0000;
        if ys >= 0x8000_0000 {
            f = 2 * f + 1;
            y = ys / 2;
        } else {
            f = 2 * f;
            y = ys;
        }
        it = it + 1;
    }
    proof {
        lemma2_to64();
        assert(f < 0x1_0000);
    }
    k * 65536 + f
}

/// The pattern every hypothetical target in `ws` would produce for guess `g`.
pub open spec fn pat_seq(g: Seq<u8>, ws: Seq<Seq<u8>>) -> Seq<Seq<Feedback>> {
    Seq::new(ws.len(), |j: int| spec_pattern(g, ws[j]))
}

/// Occurrences of the pattern `q` among the first `k` entries of `ps`.
pub open spec fn cnt_pat(ps: Seq<Seq<Feedback>>, q: Seq<Feedback>, k: int) -> nat
    decreases k,
{
    if k <= 0 {
        0
    } else {
        cnt_pat(ps, q, k - 1) + if ps[k - 1] == q {
            1nat
        } else {
            0nat
        }
    }
}

/// Whether `q` occurs among the first `k` entries of `ps`.
pub open spec fn seen_before(ps: Seq<Seq<Feedback>>, q: Seq<Feedback>, k: int) -> bool {
    exists|j: int| 0 <= j < k && ps[j] == q
}

/// The score a bucket of `c` identical patterns contributes out of `n`.
pub open spec fn bucket_term(c: int, n: int) -> int {
    c * (spec_log2(n) - spec_log2(c))
}

/// The total score of the first `k` pattern entries; each bucket of equal
/// patterns is counted once, at its first occurrence.
pub open spec fn score_prefix(ps: Seq<Seq<Feedback>>, k: int) -> int
    decreases k,
{
    if k <= 0 {
        0
    } else {
        score_prefix(ps, k - 1) + if !seen_before(ps, ps[k - 1], k - 1) {
            bucket_term(cnt_pat(ps, ps[k - 1], ps.len() as int) as int, ps.len() as int)
        } else {
            0
        }
    }
}

/// The entropy score of guessing `g` against the candidate set `ws`:
/// `n * 2^16` times the Shannon entropy in bits of the feedback-pattern
/// distribution the guess induces, under the fixed-point logarithm.
pub open spec fn entropy_score(g: Seq<u8>, ws: Seq<Seq<u8>>) -> int {
    score_prefix(pat_seq(g, ws), ws.len() as int)
}

/// A pattern that occurs at position `j` is counted at least once.
proof fn lemma_cnt_pat_pos(ps: Seq<Seq<Feedback>>, q: Seq<Feedback>, k: int, j: int)
    requires
        0 <= j < k,
        ps[j] == q,
    ensures
        cnt_pat(ps, q, k) >= 1,
    decreases k,
{
    if j < k - 1 {
        lemma_cnt_pat_pos(ps, q, k - 1, j);
    }
}

/// Compares two patterns for equality.
fn patterns_equal(a: &Vec<Feedback>, b: &Vec<Feedback>) -> (r: bool)
    ensures
        r == (a@ == b@),
{
    if a.len() != b.len() {
        return false;
    }
    let mut i: usize = 0;
    while i < a.len()
        invariant
            a@.len() == b@.len(),
            i <= a@.len(),
            forall|k: int| 0 <= k < i ==> a@[k] == b@[k],
        decreases a@.len() - i,
    {
        if a[i] != b[i] {
            return false;
        }
        i += 1;
    }
    proof {
        assert(a@ =~= b@);
    }
    true
}

/// Scores guessing `guess` against the candidate set `possible_words`:
/// partitions the set by the pattern each hypothetical target would produce
/// and sums every bucket's contribution. The result is the set's size times
/// `2^16` times the entropy in bits, under the fixed-point logarithm.
pub fn calculate_entropy(guess: &Vec<u8>, possible_words: &Vec<Vec<u8>>) -> (r: u64)
    requires
        forall|i: int|
            0 <= i < possible_words@.len() ==> (#[trigger] possible_words@[i])@.len()
                == guess@.len(),
        possible_words@.len() <= 0x10_0000,
    ensures
        r == entropy_score(guess@, word_views(possible_words@)),
{
    let ghost ws = word_views(possible_words@);
    let ghost ps = pat_seq(guess@, ws);
    let n = possible_words.len();
    if n == 0 {
        return 0;
    }
    let mut pats: Vec<Vec<Feedback>> = Vec::new();
    let mut j: usize = 0;
    while j < n
        invariant
            n == possible_words@.len(),
            pats@.len() == j,
            j <= n,
            ws == word_views(possible_words@),
            ps == pat_seq(guess@, ws),
            forall|i: int|
                0 <= i < possible_words@.len() ==> (#[trigger] possible_words@[i])@.len()
                    == guess@.len(),
            forall|i: int| 0 <= i < j ==> (#[trigger] pats@[i])@ == ps[i],
        decreases n - j,
    {
        let p = crate::pattern::oracle_pattern(guess, &possible_words[j]);
        pats.push(p);
        proof {
            assert(pats@[j as int]@ =~= ps[j as int]);
        }
        j += 1;
    }
    let ln = log2_fixed(n as u64);
    let mut acc: u64 = 0;
    let mut i: usize = 0;
    while i < n
        invariant
            n == possible_words@.len(),
            1 <= n <= 0x10_0000,
            pats@.len() == n,
            i <= n,
            ws == word_views(possible_words@),
            ps == pat_seq(guess@, ws),
            ps.len() == n,
            forall|idx: int| 0 <= idx < n ==> (#[trigger] pats@[idx])@ == ps[idx],
            ln == spec_log2(n as int),
            ln < 0x20_0000,
            acc == score_prefix(ps, i as int),
            acc <= (i as int) * 0x200_0000_0000,
        decreases n - i,
    {
        let mut seen = false;
        let mut j: usize = 0;
        while j < i
            invariant
                j <= i,
                i < n,
                pats@.len() == n,
                ps.len() == n,
                forall|idx: int| 0 <= idx < n ==> (#[trigger] pats@[idx])@ == ps[idx],
                seen == seen_before(ps, ps[i as int], j as int),
            decreases i - j,
        {
            if patterns_equal(&pats[j], &pats[i]) {
                seen = true;
            }
            j += 1;
        }
        if !seen {
            let mut cnt: usize = 0;
            let mut j2: usize = 0;
            while j2 < n
                invariant
                    j2 <= n,
                    i < n,
                    pats@.len() == n,
                    ps.len() == n,
                    forall|idx: int| 0 <= idx < n ==> (#[trigger] pats@[idx])@ == ps[idx],
                    cnt == cnt_pat(ps, ps[i as int], j2 as int),
                    cnt <= j2,
                decreases n - j2,
            {
                if patterns_equal(&pats[j2], &pats[i]) {
                    cnt = cnt + 1;
                }
                j2 += 1;
            }
            proof {
                lemma_cnt_pat_pos(ps, ps[i as int], n as int, i as int);
            }
            let lc = log2_fixed(cnt as u64);
            proof {
                lemma_log2_mono(cnt as int, n as int);
            }
            let d = ln - lc;
            proof {
                assert(cnt as int * d as int <= 0x10_0000 * 0x20_0000) by (nonlinear_arith)
                    requires
                        0 <= (cnt as int) <= 0x10_0000,
                        0 <= (d as int) < 0x20_0000,
                ;
            }
            let t = (cnt as u64) * d;
            acc = acc + t;
        }
        i += 1;
    }
    acc
}

/// For a candidate set of two words that a guess fully distinguishes — their
/// patterns under the guess differ — the guess scores exactly one bit per
/// word: `2 * 2^16`, that is, `n * 2^16 * 1.0` for `n = 2`.
pub proof fn lemma_full_split_of_two_is_one_bit(g: Seq<u8>, ws: Seq<Seq<u8>>)
    requires
        ws.len() == 2,
        spec_pattern(g, ws[0]) != spec_pattern(g, ws[1]),
    ensures
        entropy_score(g, ws) == 2 * log_scale(),
{
    let ps = pat_seq(g, ws);
    lemma_log2_values();
    assert(ps[0] == spec_pattern(g, ws[0]));
    assert(ps[1] == spec_pattern(g, ws[1]));
    assert(cnt_pat(ps, ps[0], 0) == 0);
    assert(cnt_pat(ps, ps[0], 1) == 1);
    assert(cnt_pat(ps, ps[0], 2) == 1);
    assert(cnt_pat(ps, ps[1], 0) == 0);
    assert(cnt_pat(ps, ps[1], 1) == 0);
    assert(cnt_pat(ps, ps[1], 2) == 1);
    assert(!seen_before(ps, ps[0], 0));
    assert(!seen_before(ps, ps[1], 1));
    assert(score_prefix(ps, 0) == 0);
    assert(score_prefix(ps, 1) == bucket_term(1, 2));
    assert(score_prefix(ps, 2) == 2 * bucket_term(1, 2));
    assert(bucket_term(1, 2) == log_scale());
}

} // verus!
