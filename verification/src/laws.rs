//! The laws that tie the feedback oracle and the constraint filter together:
//! how many marks of each kind a pattern can carry, and that filtering by a
//! target's own true pattern always retains that target.

use vstd::prelude::*;
use vstd::math::min;
use crate::pattern::{
    Feedback, avail, cnt_hits, cnt_nonhit, count_letter, lemma_avail_nonneg, pattern_at,
    spec_pattern,
};
use crate::filter::{cnt_marked, colored_count, gray_count, filtered, keeps, letter_ok};

verus! {

/// Positions among the first `k` of `p` marked Hit.
pub open spec fn cnt_hit_marks(p: Seq<Feedback>, k: int) -> nat
    decreases k,
{
    if k <= 0 {
        0
    } else {
        cnt_hit_marks(p, k - 1) + if p[k - 1] is Hit {
            1nat
        } else {
            0nat
        }
    }
}

/// Positions among the first `k` where guess and target hold the same letter.
pub open spec fn cnt_eq_positions(g: Seq<u8>, t: Seq<u8>, k: int) -> nat
    decreases k,
{
    if k <= 0 {
        0
    } else {
        cnt_eq_positions(g, t, k - 1) + if g[k - 1] == t[k - 1] {
            1nat
        } else {
            0nat
        }
    }
}

/// In the oracle's pattern, the marks of one letter decompose exactly: the
/// Hit/Present marks are the exact matches plus as many Present marks as the
/// target's unmatched multiplicity allows, and the Absent marks are the
/// remaining non-matching positions.
pub proof fn lemma_marks_decompose(g: Seq<u8>, t: Seq<u8>, c: u8, k: int)
    requires
        g.len() == t.len(),
        0 <= k <= g.len(),
    ensures
        cnt_marked(g, spec_pattern(g, t), c, k, false) == cnt_hits(g, t, c, k) + min(
            cnt_nonhit(g, t, c, k) as int,
            avail(g, t, c),
        ),
        cnt_marked(g, spec_pattern(g, t), c, k, true) == cnt_nonhit(g, t, c, k) - min(
            cnt_nonhit(g, t, c, k) as int,
            avail(g, t, c),
        ),
    decreases k,
{
    lemma_avail_nonneg(g, t, c);
    if k > 0 {
        lemma_marks_decompose(g, t, c, k - 1);
        assert(spec_pattern(g, t)[k - 1] == pattern_at(g, t, k - 1));
    }
}

/// Hit marks count the position-wise equal letters, prefix by prefix.
proof fn lemma_hit_marks_are_eq_positions(g: Seq<u8>, t: Seq<u8>, k: int)
    requires
        g.len() == t.len(),
        0 <= k <= g.len(),
    ensures
        cnt_hit_marks(spec_pattern(g, t), k) == cnt_eq_positions(g, t, k),
    decreases k,
{
    if k > 0 {
        lemma_hit_marks_are_eq_positions(g, t, k - 1);
        assert(spec_pattern(g, t)[k - 1] == pattern_at(g, t, k - 1));
    }
}

/// For an equal-length guess and target, the oracle marks Hit at exactly the
/// position-wise equal letters — so the pattern carries exactly as many Hit
/// marks as there are such positions — and for every letter, the total of its
/// Hit and Present marks never exceeds its multiplicity in the target.
pub proof fn lemma_pattern_counts(g: Seq<u8>, t: Seq<u8>)
    requires
        g.len() == t.len(),
    ensures
        spec_pattern(g, t).len() == g.len(),
        forall|i: int|
            0 <= i < g.len() ==> ((#[trigger] spec_pattern(g, t)[i]) is Hit <==> g[i] == t[i]),
        cnt_hit_marks(spec_pattern(g, t), g.len() as int) == cnt_eq_positions(
            g,
            t,
            g.len() as int,
        ),
        forall|c: u8| #[trigger] colored_count(g, spec_pattern(g, t), c) <= count_letter(t, c),
{
    lemma_hit_marks_are_eq_positions(g, t, g.len() as int);
    assert forall|c: u8| #[trigger] colored_count(g, spec_pattern(g, t), c) <= count_letter(
        t,
        c,
    ) by {
        lemma_marks_decompose(g, t, c, g.len() as int);
        lemma_avail_nonneg(g, t, c);
    }
}

/// A target always satisfies the constraints derived from its own pattern.
pub proof fn lemma_target_keeps_own_pattern(g: Seq<u8>, t: Seq<u8>)
    requires
        g.len() == t.len(),
    ensures
        keeps(g, spec_pattern(g, t), t),
{
    let p = spec_pattern(g, t);
    assert forall|c: u8| #[trigger] letter_ok(g, p, t, c) by {
        lemma_marks_decompose(g, t, c, g.len() as int);
        lemma_avail_nonneg(g, t, c);
        let nh = cnt_nonhit(g, t, c, g.len() as int) as int;
        let av = avail(g, t, c);
        if gray_count(g, p, c) > 0 {
            assert(nh - min(nh, av) > 0);
            assert(min(nh, av) == av);
        }
    }
}

/// Every word the filter keeps satisfies the constraints and came from the
/// input; in particular the filtered set never grows.
pub proof fn lemma_filtered_elems(g: Seq<u8>, p: Seq<Feedback>, ws: Seq<Seq<u8>>)
    ensures
        filtered(g, p, ws).len() <= ws.len(),
        forall|i: int|
            0 <= i < filtered(g, p, ws).len() ==> keeps(g, p, #[trigger] filtered(g, p, ws)[i])
                && ws.contains(filtered(g, p, ws)[i]),
    decreases ws.len(),
{
    reveal(Seq::filter);
    let out = filtered(g, p, ws);
    if ws.len() > 0 {
        lemma_filtered_elems(g, p, ws.drop_last());
        let sub = filtered(g, p, ws.drop_last());
        assert forall|i: int|
            0 <= i < out.len() implies keeps(g, p, #[trigger] out[i]) && ws.contains(out[i]) by {
            if i < sub.len() {
                assert(out[i] == sub[i]);
                let j = choose|j: int| 0 <= j < ws.drop_last().len() && ws.drop_last()[j] == sub[i];
                assert(ws[j] == sub[i]);
            } else {
                assert(out[i] == ws.last());
                assert(ws[ws.len() - 1] == ws.last());
            }
        }
    }
}

/// A word that satisfies the constraints is kept by the filter.
pub proof fn lemma_filtered_contains(g: Seq<u8>, p: Seq<Feedback>, ws: Seq<Seq<u8>>, j: int)
    requires
        0 <= j < ws.len(),
        keeps(g, p, ws[j]),
    ensures
        filtered(g, p, ws).contains(ws[j]),
    decreases ws.len(),
{
    reveal(Seq::filter);
    let out = filtered(g, p, ws);
    if j == ws.len() - 1 {
        assert(out[out.len() - 1] == ws[j]);
    } else {
        lemma_filtered_contains(g, p, ws.drop_last(), j);
        let sub = filtered(g, p, ws.drop_last());
        let i = choose|i: int| 0 <= i < sub.len() && sub[i] == ws.drop_last()[j];
        assert(out[i] == ws[j]);
    }
}

/// Filtering any candidate set by the pattern a target itself produces for a
/// guess always retains that target.
pub proof fn lemma_true_pattern_retains_target(g: Seq<u8>, t: Seq<u8>, ws: Seq<Seq<u8>>)
    requires
        g.len() == t.len(),
        ws.contains(t),
    ensures
        keeps(g, spec_pattern(g, t), t),
        filtered(g, spec_pattern(g, t), ws).contains(t),
{
    lemma_target_keeps_own_pattern(g, t);
    let j = choose|j: int| 0 <= j < ws.len() && ws[j] == t;
    lemma_filtered_contains(g, spec_pattern(g, t), ws, j);
}

} // verus!
